//! Which definitions a refresh is about, and what it reports.

use vstd::prelude::*;
use crate::args::ToolError;
use crate::refresh::{outcome_views, Outcome, ReembedOutcome};
use crate::text::{join3, same, texts};

verus! {

/// A placed symbol: its designator, and the symbol it is an instance of.
pub struct InstanceRef {
    pub reference: String,
    pub lib_id: String,
}

/// Some instance bears the designator.
pub open spec fn placed(instances: Seq<InstanceRef>, reference: Seq<char>) -> bool {
    exists|i: int| 0 <= i < instances.len() && (#[trigger] instances[i]).reference@ == reference
}

/// The first of the designators, from index `i` on, that no instance bears.
pub open spec fn first_missing(instances: Seq<InstanceRef>, refs: Seq<Seq<char>>, i: int) -> Option<
    Seq<char>,
>
    decreases refs.len() - i,
{
    if i >= refs.len() {
        None
    } else if !placed(instances, refs[i]) {
        Some(refs[i])
    } else {
        first_missing(instances, refs, i + 1)
    }
}

/// An instance is among those asked for; all are when none are named.
pub open spec fn asked(only: Option<Seq<Seq<char>>>, reference: Seq<char>) -> bool {
    match only {
        Some(refs) => refs.contains(reference),
        None => true,
    }
}

/// The symbols of the first `n` instances that are asked for, each once.
pub open spec fn lib_ids_of(
    instances: Seq<InstanceRef>,
    only: Option<Seq<Seq<char>>>,
    n: int,
) -> Seq<Seq<char>>
    decreases n,
{
    if n <= 0 {
        Seq::empty()
    } else {
        let before = lib_ids_of(instances, only, n - 1);
        let inst = instances[n - 1];
        if asked(only, inst.reference@) && !before.contains(inst.lib_id@) {
            before.push(inst.lib_id@)
        } else {
            before
        }
    }
}

/// The designators asked for, as mathematical values.
pub open spec fn only_view(only: Option<Vec<String>>) -> Option<Seq<Seq<char>>> {
    match only {
        Some(refs) => Some(texts(refs@)),
        None => None,
    }
}

/// Whether a text is in a list.
pub fn list_contains(list: &Vec<String>, text: &str) -> (r: bool)
    ensures
        r == texts(list@).contains(text@),
{
    let mut i: usize = 0;
    while i < list.len()
        invariant
            i <= list@.len(),
            forall|k: int| 0 <= k < i ==> (#[trigger] texts(list@)[k]) != text@,
        decreases list@.len() - i,
    {
        if same(list[i].as_str(), text) {
            assert(texts(list@)[i as int] == text@);
            return true;
        }
        i += 1;
    }
    false
}

fn is_placed(instances: &Vec<InstanceRef>, reference: &str) -> (r: bool)
    ensures
        r == placed(instances@, reference@),
{
    let mut i: usize = 0;
    while i < instances.len()
        invariant
            i <= instances@.len(),
            forall|k: int| 0 <= k < i ==> (#[trigger] instances@[k]).reference@ != reference@,
        decreases instances@.len() - i,
    {
        if same(instances[i].reference.as_str(), reference) {
            return true;
        }
        i += 1;
    }
    false
}

/// The symbols to refresh, each once, in the order in which they are first
/// placed; or the refusal that names the first designator asked for that no
/// symbol bears.
pub fn update_targets(instances: &Vec<InstanceRef>, only: &Option<Vec<String>>, path: &str) -> (r:
    Result<Vec<String>, ToolError>)
    ensures
        match r {
            Ok(ids) => {
                &&& only_view(*only) matches Some(refs) ==> first_missing(instances@, refs, 0) is None
                &&& texts(ids@) == lib_ids_of(
                    instances@,
                    only_view(*only),
                    instances@.len() as int,
                )
            },
            Err(e) => {
                &&& e.kind is None
                &&& only_view(*only) matches Some(refs)
                &&& first_missing(instances@, refs, 0) matches Some(missing)
                &&& e.message@ == "Component '"@ + missing + "' not found in "@ + path@
            },
        },
{
    if let Some(refs) = only {
        let ghost all = texts(refs@);
        let mut i: usize = 0;
        while i < refs.len()
            invariant
                i <= refs@.len(),
                all == texts(refs@),
                only_view(*only) == Some(all),
                first_missing(instances@, all, 0) == first_missing(instances@, all, i as int),
            decreases refs@.len() - i,
        {
            assert(all[i as int] == refs@[i as int]@);
            if !is_placed(instances, refs[i].as_str()) {
                return Err(
                    ToolError::plain(
                        crate::text::join4("Component '", refs[i].as_str(), "' not found in ", path),
                    ),
                );
            }
            i += 1;
        }
    }
    let ghost wanted = only_view(*only);
    let mut ids: Vec<String> = Vec::new();
    let mut i: usize = 0;
    assert(texts(ids@) =~= lib_ids_of(instances@, wanted, 0));
    while i < instances.len()
        invariant
            i <= instances@.len(),
            wanted == only_view(*only),
            texts(ids@) == lib_ids_of(instances@, wanted, i as int),
        decreases instances@.len() - i,
    {
        let ghost before = ids@;
        let inst = &instances[i];
        let chosen = match only {
            Some(refs) => list_contains(refs, inst.reference.as_str()),
            None => true,
        };
        if chosen && !list_contains(&ids, inst.lib_id.as_str()) {
            ids.push(inst.lib_id.clone());
            assert(texts(ids@) =~= texts(before).push(inst.lib_id@));
        }
        i += 1;
    }
    Ok(ids)
}

// ── The report ───────────────────────────────────────────────────────────────

/// What a refresh did, symbol by symbol.
pub struct UpdateReport {
    pub updated: Vec<String>,
    pub unchanged: Vec<String>,
    /// Symbols left alone because of their pins, each with what became of these.
    pub pins_moved: Vec<(String, Vec<String>)>,
    pub errors: Vec<String>,
}

/// The symbols among the first `n` that were updated.
pub open spec fn updated_ids(ids: Seq<Seq<char>>, os: Seq<Outcome>, n: int) -> Seq<Seq<char>>
    decreases n,
{
    if n <= 0 {
        Seq::empty()
    } else if os[n - 1] is Updated {
        updated_ids(ids, os, n - 1).push(ids[n - 1])
    } else {
        updated_ids(ids, os, n - 1)
    }
}

/// The symbols among the first `n` that already matched their libraries.
pub open spec fn unchanged_ids(ids: Seq<Seq<char>>, os: Seq<Outcome>, n: int) -> Seq<Seq<char>>
    decreases n,
{
    if n <= 0 {
        Seq::empty()
    } else if os[n - 1] is Unchanged {
        unchanged_ids(ids, os, n - 1).push(ids[n - 1])
    } else {
        unchanged_ids(ids, os, n - 1)
    }
}

/// The symbols among the first `n` that were left alone because of their pins.
pub open spec fn moved_ids(ids: Seq<Seq<char>>, os: Seq<Outcome>, n: int) -> Seq<
    (Seq<char>, Seq<Seq<char>>),
>
    decreases n,
{
    if n <= 0 {
        Seq::empty()
    } else {
        match os[n - 1] {
            Outcome::PinsMoved(pins) => moved_ids(ids, os, n - 1).push((ids[n - 1], pins)),
            _ => moved_ids(ids, os, n - 1),
        }
    }
}

/// What could not be done for the first `n` symbols.
pub open spec fn update_errors(ids: Seq<Seq<char>>, os: Seq<Outcome>, n: int) -> Seq<Seq<char>>
    decreases n,
{
    if n <= 0 {
        Seq::empty()
    } else {
        match os[n - 1] {
            Outcome::Unresolved => update_errors(ids, os, n - 1).push(
                "'"@ + ids[n - 1]
                    + "' no longer resolves in any registered library — the embedded copy is left as it is"@,
            ),
            Outcome::NotEmbedded => update_errors(ids, os, n - 1).push(
                "'"@ + ids[n - 1] + "' has no embedded definition to update"@,
            ),
            _ => update_errors(ids, os, n - 1),
        }
    }
}

/// Symbols with notes on their pins, as mathematical values.
pub open spec fn moved_views(v: Seq<(String, Vec<String>)>) -> Seq<(Seq<char>, Seq<Seq<char>>)> {
    v.map_values(|m: (String, Vec<String>)| (m.0@, texts(m.1@)))
}

impl UpdateReport {
    /// The report on the first `n` symbols.
    pub open spec fn tells(&self, ids: Seq<Seq<char>>, os: Seq<Outcome>, n: int) -> bool {
        &&& texts(self.updated@) == updated_ids(ids, os, n)
        &&& texts(self.unchanged@) == unchanged_ids(ids, os, n)
        &&& moved_views(self.pins_moved@) == moved_ids(ids, os, n)
        &&& texts(self.errors@) == update_errors(ids, os, n)
    }

    /// Whether there is anything to write.
    pub fn writes(&self, dry_run: bool) -> (r: bool)
        ensures
            r == (self.updated@.len() > 0 && !dry_run),
    {
        self.updated.len() > 0 && !dry_run
    }

    /// Advice on symbols that were left alone because of their pins.
    pub fn hint(&self) -> (r: Option<&'static str>)
        ensures
            match r {
                Some(h) => self.pins_moved@.len() > 0 && h@
                    == "Symbols listed in pins_moved were left untouched: the library moved or removed pins, and wires and labels attach at pin coordinates. Pass allow_pin_moves: true to update them anyway, then reconnect."@,
                None => self.pins_moved@.len() == 0,
            },
    {
        if self.pins_moved.len() > 0 {
            Some(
                "Symbols listed in pins_moved were left untouched: the library moved or removed pins, and wires and labels attach at pin coordinates. Pass allow_pin_moves: true to update them anyway, then reconnect.",
            )
        } else {
            None
        }
    }
}

/// The report on a refresh.
pub fn update_report(lib_ids: &Vec<String>, outcomes: Vec<ReembedOutcome>) -> (r: UpdateReport)
    requires
        outcomes@.len() == lib_ids@.len(),
    ensures
        r.tells(texts(lib_ids@), outcome_views(outcomes@), lib_ids@.len() as int),
{
    let ghost ids = texts(lib_ids@);
    let ghost os = outcome_views(outcomes@);
    let ghost all = outcomes@;
    let mut outcomes = outcomes;
    let mut report = UpdateReport {
        updated: Vec::new(),
        unchanged: Vec::new(),
        pins_moved: Vec::new(),
        errors: Vec::new(),
    };
    assert(texts(report.updated@) =~= updated_ids(ids, os, 0));
    assert(texts(report.unchanged@) =~= unchanged_ids(ids, os, 0));
    assert(moved_views(report.pins_moved@) =~= moved_ids(ids, os, 0));
    assert(texts(report.errors@) =~= update_errors(ids, os, 0));
    let mut i: usize = 0;
    while i < lib_ids.len()
        invariant
            i <= lib_ids@.len(),
            all.len() == lib_ids@.len(),
            outcomes@.len() == all.len(),
            forall|k: int| i <= k < all.len() ==> #[trigger] outcomes@[k] == all[k],
            ids == texts(lib_ids@),
            os == outcome_views(all),
            report.tells(ids, os, i as int),
        decreases lib_ids@.len() - i,
    {
        let ghost before = report;
        assert(ids[i as int] == lib_ids@[i as int]@);
        assert(os[i as int] == all[i as int]@);
        let id = lib_ids[i].as_str();
        let mut outcome = ReembedOutcome::Updated;
        std::mem::swap(&mut outcome, &mut outcomes[i]);
        match outcome {
            ReembedOutcome::Updated => {
                report.updated.push(id.to_owned());
                assert(texts(report.updated@) =~= texts(before.updated@).push(id@));
            },
            ReembedOutcome::Unchanged => {
                report.unchanged.push(id.to_owned());
                assert(texts(report.unchanged@) =~= texts(before.unchanged@).push(id@));
            },
            ReembedOutcome::PinsMoved(pins) => {
                let ghost notes = texts(pins@);
                report.pins_moved.push((id.to_owned(), pins));
                assert(moved_views(report.pins_moved@) =~= moved_views(before.pins_moved@).push(
                    (id@, notes),
                ));
            },
            ReembedOutcome::Unresolved => {
                let note = join3(
                    "'",
                    id,
                    "' no longer resolves in any registered library — the embedded copy is left as it is",
                );
                report.errors.push(note);
                assert(texts(report.errors@) =~= texts(before.errors@).push(note@));
            },
            ReembedOutcome::NotEmbedded => {
                let note = join3("'", id, "' has no embedded definition to update");
                report.errors.push(note);
                assert(texts(report.errors@) =~= texts(before.errors@).push(note@));
            },
        }
        i += 1;
    }
    report
}

/// The symbols to refresh are listed once each.
pub proof fn law_targets_distinct(
    instances: Seq<InstanceRef>,
    only: Option<Seq<Seq<char>>>,
    n: int,
)
    requires
        n <= instances.len(),
    ensures
        forall|i: int, j: int|
            0 <= i < j < lib_ids_of(instances, only, n).len() ==> lib_ids_of(instances, only, n)[i]
                != lib_ids_of(instances, only, n)[j],
    decreases n,
{
    if n > 0 {
        law_targets_distinct(instances, only, n - 1);
        let before = lib_ids_of(instances, only, n - 1);
        let now = lib_ids_of(instances, only, n);
        assert forall|i: int, j: int| 0 <= i < j < now.len() implies now[i] != now[j] by {
            assert(now[i] == before[i]);
            assert(before.contains(before[i]));
        }
    }
}

/// Every symbol that an instance asked for is one of is refreshed, and no other.
pub proof fn law_targets_complete(
    instances: Seq<InstanceRef>,
    only: Option<Seq<Seq<char>>>,
    n: int,
    lib_id: Seq<char>,
)
    requires
        0 <= n <= instances.len(),
    ensures
        lib_ids_of(instances, only, n).contains(lib_id) <==> exists|i: int|
            0 <= i < n && (#[trigger] instances[i]).lib_id@ == lib_id && asked(
                only,
                instances[i].reference@,
            ),
    decreases n,
{
    if n > 0 {
        law_targets_complete(instances, only, n - 1, lib_id);
        let before = lib_ids_of(instances, only, n - 1);
        let now = lib_ids_of(instances, only, n);
        let inst = instances[n - 1];
        if before.contains(lib_id) {
            let k = choose|k: int| 0 <= k < before.len() && before[k] == lib_id;
            assert(now[k] == lib_id);
        } else if inst.lib_id@ == lib_id && asked(only, inst.reference@) {
            assert(now[before.len() as int] == lib_id);
        } else if now.contains(lib_id) {
            let k = choose|k: int| 0 <= k < now.len() && now[k] == lib_id;
            if k < before.len() {
                assert(before[k] == lib_id);
            }
        }
    }
}

} // verus!
