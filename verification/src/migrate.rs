//! Bringing a saved trigger library up to date when it is loaded, and building the
//! starter library, with the size checks that make counting changes safe.

use vstd::prelude::*;
use crate::eql_compat::{count_groups, permanent_set, strip_permanent_buff_timers, stripped_groups};
use crate::model::{GroupView, TriggerLibrary};
use crate::starter::{
    ability_group_fn, apply_gameplay_essentials_defaults, countable, demote_fn, demote_optional_essentials,
    dot_group_fn, ensure_default_tts, ensure_eql_ability_timers, ensure_eql_disease_dot_timers,
    ensure_eql_mez_timers, ensure_essentials, ensure_shaman_warnings, essentials_spec, gameplay_defaults_spec,
    group_changes, library_is_countable, map_group_views, mez_spec, shaman_warnings_spec, speak_sources,
    starter_fits, starter_stages, triggers_upto, tts_group_fn,
};

verus! {

/// The one-shot upgrades already applied to a saved library (kept with the settings).
#[derive(Debug, Clone, Copy)]
pub struct MigrationFlags {
    pub eql_compat_permanent_v1: bool,
    pub eql_tts_v1: bool,
    pub eql_essentials_opt_in_v1: bool,
    pub eql_essentials_gameplay_v2: bool,
}

/// One upgrade step after `prev`: when `run`, apply `f` and note whether it changed
/// anything; `None` once a step that counts its changes (`counted`) meets a library
/// too large to count them.
pub open spec fn then_step(
    prev: Option<(Seq<GroupView>, bool)>,
    run: bool,
    counted: bool,
    f: spec_fn(Seq<GroupView>) -> (Seq<GroupView>, nat),
) -> Option<(Seq<GroupView>, bool)> {
    match prev {
        None => None,
        Some((gs, dirty)) => if !run {
            Some((gs, dirty))
        } else if counted && !countable(gs) {
            None
        } else {
            Some((f(gs).0, dirty || f(gs).1 > 0))
        },
    }
}

/// A per-group fix as a whole-library step.
pub open spec fn each_group(f: spec_fn(GroupView) -> (GroupView, nat)) -> spec_fn(Seq<GroupView>) -> (
    Seq<GroupView>,
    nat,
) {
    |gs: Seq<GroupView>| (map_group_views(gs, f), group_changes(gs, f, gs.len() as int))
}

/// Stripping the timers of the permanent buffs among `spells`.
pub open spec fn strip_step(spells: Seq<Seq<char>>) -> spec_fn(Seq<GroupView>) -> (Seq<GroupView>, nat) {
    |gs: Seq<GroupView>|
        (
            stripped_groups(gs, permanent_set(spells)),
            count_groups(gs, permanent_set(spells), gs.len() as int),
        )
}

/// The upgrades a saved library gets when loaded, in order: the one-shot ones whose
/// flag is still clear, and the ones that run every time.  `Some` of the library and
/// whether anything changed, or `None` when a library too large to count its changes
/// reaches a counting step.
pub open spec fn migrate_spec(
    gs: Seq<GroupView>,
    flags: MigrationFlags,
    spells: Seq<Seq<char>>,
    pack: Seq<GroupView>,
) -> Option<(Seq<GroupView>, bool)> {
    let tts = each_group(tts_group_fn(speak_sources(pack)));
    let s1 = then_step(Some((gs, false)), !flags.eql_compat_permanent_v1, true, strip_step(spells));
    let s2 = then_step(s1, !flags.eql_tts_v1, true, tts);
    let s3 = then_step(s2, true, false, |g: Seq<GroupView>| essentials_spec(g));
    let s4 = then_step(s3, true, true, tts);
    let s5 = then_step(s4, true, true, each_group(ability_group_fn()));
    let s6 = then_step(s5, true, false, |g: Seq<GroupView>| shaman_warnings_spec(g));
    let s7 = then_step(s6, true, true, |g: Seq<GroupView>| mez_spec(g));
    let s8 = then_step(s7, true, true, each_group(dot_group_fn()));
    let s9 = then_step(s8, !flags.eql_essentials_opt_in_v1, true, each_group(demote_fn()));
    then_step(s9, !flags.eql_essentials_gameplay_v2, false, |g: Seq<GroupView>| gameplay_defaults_spec(g))
}

/// Every one-shot upgrade recorded as applied.
pub open spec fn all_applied(f: MigrationFlags) -> bool {
    f.eql_compat_permanent_v1 && f.eql_tts_v1 && f.eql_essentials_opt_in_v1 && f.eql_essentials_gameplay_v2
}

/// Upgrades a loaded library: strips permanent-buff timers and fills speak lines once,
/// completes the essentials, speak lines, ability, shaman warning, mez and DoT fixes,
/// and demotes then arms the essentials once.  Returns the library and whether it
/// changed (so needs saving), and records every one-shot upgrade as applied; `None`,
/// with the flags untouched, when the library is too large to count its changes.
pub fn migrate_library(
    library: &TriggerLibrary,
    flags: &mut MigrationFlags,
    permanent_spells: &Vec<String>,
    pack: &TriggerLibrary,
) -> (r: Option<(TriggerLibrary, bool)>)
    ensures
        match r {
            Some((lib, dirty)) => migrate_spec(library@, *old(flags), permanent_spells.deep_view(), pack@) == Some(
                (lib@, dirty),
            ) && all_applied(*final(flags)),
            None => migrate_spec(library@, *old(flags), permanent_spells.deep_view(), pack@) is None
                && *final(flags) == *old(flags),
        },
{
    let ghost spells = permanent_spells.deep_view();
    let ghost tts = each_group(tts_group_fn(speak_sources(pack@)));
    let start = *flags;
    let mut lib = library.duplicate();
    let mut dirty = false;
    let ghost s0: Option<(Seq<GroupView>, bool)> = Some((library@, false));

    let ghost s1 = then_step(s0, !start.eql_compat_permanent_v1, true, strip_step(spells));
    if !start.eql_compat_permanent_v1 {
        if !library_is_countable(&lib) {
            return None;
        }
        if strip_permanent_buff_timers(&mut lib, permanent_spells) > 0 {
            dirty = true;
        }
    }
    assert(s1 == Some((lib@, dirty)));

    let ghost s2 = then_step(s1, !start.eql_tts_v1, true, tts);
    if !start.eql_tts_v1 {
        if !library_is_countable(&lib) {
            return None;
        }
        if ensure_default_tts(&mut lib, pack) > 0 {
            dirty = true;
        }
    }
    assert(s2 == Some((lib@, dirty)));

    let ghost s3 = then_step(s2, true, false, |g: Seq<GroupView>| essentials_spec(g));
    if ensure_essentials(&mut lib) > 0 {
        dirty = true;
    }
    assert(s3 == Some((lib@, dirty)));

    let ghost s4 = then_step(s3, true, true, tts);
    if !library_is_countable(&lib) {
        return None;
    }
    if ensure_default_tts(&mut lib, pack) > 0 {
        dirty = true;
    }
    assert(s4 == Some((lib@, dirty)));

    let ghost s5 = then_step(s4, true, true, each_group(ability_group_fn()));
    if !library_is_countable(&lib) {
        return None;
    }
    if ensure_eql_ability_timers(&mut lib) > 0 {
        dirty = true;
    }
    assert(s5 == Some((lib@, dirty)));

    let ghost s6 = then_step(s5, true, false, |g: Seq<GroupView>| shaman_warnings_spec(g));
    if ensure_shaman_warnings(&mut lib) > 0 {
        dirty = true;
    }
    assert(s6 == Some((lib@, dirty)));

    let ghost s7 = then_step(s6, true, true, |g: Seq<GroupView>| mez_spec(g));
    if !library_is_countable(&lib) {
        return None;
    }
    if ensure_eql_mez_timers(&mut lib) > 0 {
        dirty = true;
    }
    assert(s7 == Some((lib@, dirty)));

    let ghost s8 = then_step(s7, true, true, each_group(dot_group_fn()));
    if !library_is_countable(&lib) {
        return None;
    }
    if ensure_eql_disease_dot_timers(&mut lib) > 0 {
        dirty = true;
    }
    assert(s8 == Some((lib@, dirty)));

    let ghost s9 = then_step(s8, !start.eql_essentials_opt_in_v1, true, each_group(demote_fn()));
    if !start.eql_essentials_opt_in_v1 {
        if !library_is_countable(&lib) {
            return None;
        }
        if demote_optional_essentials(&mut lib) > 0 {
            dirty = true;
        }
    }
    assert(s9 == Some((lib@, dirty)));

    if !start.eql_essentials_gameplay_v2 {
        if apply_gameplay_essentials_defaults(&mut lib) > 0 {
            dirty = true;
        }
    }
    flags.eql_compat_permanent_v1 = true;
    flags.eql_tts_v1 = true;
    flags.eql_essentials_opt_in_v1 = true;
    flags.eql_essentials_gameplay_v2 = true;
    Some((lib, dirty))
}

/// The starter library that `starter_pack` builds, or `None` when some stage of building it
/// is too large to count its changes.
pub fn try_starter_pack(base: TriggerLibrary, permanent_spells: &Vec<String>) -> (r: Option<TriggerLibrary>)
    ensures
        match r {
            Some(lib) => starter_fits(base@, permanent_spells.deep_view()) && lib@ == starter_stages(
                base@,
                permanent_spells.deep_view(),
            )[8],
            None => !starter_fits(base@, permanent_spells.deep_view()),
        },
{
    let ghost st = starter_stages(base@, permanent_spells.deep_view());
    proof {
        crate::eql_compat::lemma_stripped_sizes(base@, permanent_set(permanent_spells.deep_view()), base@.len() as int);
    }
    if !library_is_countable(&base) {
        assert(!countable(st[0]));
        return None;
    }
    let mut probe = base.duplicate();
    let _ = strip_permanent_buff_timers(&mut probe, permanent_spells);
    assert(probe@ == st[0]);
    let mut k: usize = 1;
    while k < 9
        invariant
            1 <= k <= 9,
            st == starter_stages(base@, permanent_spells.deep_view()),
            triggers_upto(base@, base@.len() as int) <= usize::MAX,
            forall|j: int| 0 <= j < k ==> countable(#[trigger] st[j]),
            probe@ == st[k - 1],
        decreases 9 - k,
    {
        if k == 1 {
            let _ = ensure_essentials(&mut probe);
        } else if k == 2 {
            let _ = ensure_shaman_warnings(&mut probe);
        } else if k == 3 {
            let _ = crate::starter::ensure_shaman_dots(&mut probe);
        } else if k == 4 {
            let _ = crate::starter::ensure_shaman_buffs(&mut probe);
        } else if k == 5 {
            let _ = ensure_eql_mez_timers(&mut probe);
        } else if k == 6 {
            let _ = crate::starter::ensure_divine_invulnerability(&mut probe);
        } else if k == 7 {
            let _ = ensure_eql_disease_dot_timers(&mut probe);
        } else {
            let _ = ensure_default_tts(&mut probe, &base);
        }
        if !library_is_countable(&probe) {
            assert(!countable(st[k as int]));
            return None;
        }
        k += 1;
    }
    Some(probe)
}

} // verus!
