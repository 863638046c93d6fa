//! The environment overrides that undo what an AppImage runtime injected, so
//! that programs started from the terminal do not load the bundle's
//! libraries.
use crate::paths::{path_prefix, path_starts_with};
use crate::spawn::opt_string_view;
use crate::split::{
    bounds_within, is_separator, join_bounds, join_spec, lemma_split_join,
    lemma_split_pieces_lack_separator, pieces_of, split_bounds, split_by, Separator,
};
use crate::text::{chars_of, string_of_range};
use vstd::prelude::*;
use vstd::string::*;

verus! {

/// Search-path variables: their entries under the AppImage mount are removed.
pub const APPIMAGE_PATH_VARS: [&'static str; 10] = [
    "LD_LIBRARY_PATH",
    "PATH",
    "XDG_DATA_DIRS",
    "GST_PLUGIN_SYSTEM_PATH",
    "GST_PLUGIN_SYSTEM_PATH_1_0",
    "GST_PLUGIN_PATH",
    "GI_TYPELIB_PATH",
    "GDK_PIXBUF_MODULEDIR",
    "GIO_MODULE_DIR",
    "GSETTINGS_SCHEMA_DIR",
];

/// Single-path variables: unset when they point into the AppImage mount.
pub const APPIMAGE_VALUE_VARS: [&'static str; 4] = [
    "GDK_PIXBUF_MODULE_FILE",
    "LD_PRELOAD",
    "FONTCONFIG_FILE",
    "FONTCONFIG_PATH",
];

/// Variables that mark the AppImage runtime: always unset when present.
pub const APPIMAGE_MARKER_VARS: [&'static str; 3] = ["APPDIR", "APPIMAGE", "ARGV0"];

/// An environment as the specs see it: (name, value) pairs.
pub type EnvView = Seq<(Seq<char>, Seq<char>)>;

/// An override as the specs see it: the variable, and its new value (`None`
/// to unset it).
pub type OverrideView = (Seq<char>, Option<Seq<char>>);

/// The view of an environment.
pub open spec fn env_view(env: Seq<(String, String)>) -> EnvView {
    env.map_values(|p: (String, String)| (p.0@, p.1@))
}

/// The view of some overrides.
pub open spec fn overrides_view(o: Seq<(String, Option<String>)>) -> Seq<OverrideView> {
    o.map_values(|p: (String, Option<String>)| (p.0@, opt_string_view(p.1)))
}

/// The names in a list of variable names.
pub open spec fn names_view(names: Seq<&str>) -> Seq<Seq<char>> {
    names.map_values(|n: &str| n@)
}

/// The value of `key` in `env` (the first pair that names it).
pub open spec fn env_lookup(env: EnvView, key: Seq<char>) -> Option<Seq<char>>
    decreases env.len(),
{
    if env.len() == 0 {
        None
    } else if env[0].0 == key {
        Some(env[0].1)
    } else {
        env_lookup(env.drop_first(), key)
    }
}

/// Whether a search-path entry stays: it is not empty and not under `appdir`.
pub open spec fn keeps_entry(entry: Seq<char>, appdir: Seq<char>) -> bool {
    entry.len() > 0 && !path_prefix(entry, appdir)
}

/// The entries of `es` that stay, in order.
pub open spec fn kept_entries(es: Seq<Seq<char>>, appdir: Seq<char>) -> Seq<Seq<char>>
    decreases es.len(),
{
    if es.len() == 0 {
        Seq::empty()
    } else if keeps_entry(es.last(), appdir) {
        kept_entries(es.drop_last(), appdir).push(es.last())
    } else {
        kept_entries(es.drop_last(), appdir)
    }
}

/// The override of a search-path variable with value `value`: none when every
/// entry stays; otherwise the kept entries joined by `:`, or unset when none
/// stays. (Entries are split at `:`, as `std::env::split_paths` does on Unix;
/// they hold no `:`, so joining them back cannot fail.)
pub open spec fn path_var_override(value: Seq<char>, appdir: Seq<char>) -> Option<Option<Seq<char>>> {
    let entries = split_by(value, Separator::Char(':'));
    let kept = kept_entries(entries, appdir);
    if kept.len() == entries.len() {
        None
    } else if kept.len() == 0 {
        Some(None)
    } else {
        Some(Some(join_spec(kept, seq![':'])))
    }
}

/// The overrides of the search-path variables `keys`, in order.
pub open spec fn path_overrides(keys: Seq<Seq<char>>, appdir: Seq<char>, env: EnvView) -> Seq<
    OverrideView,
>
    decreases keys.len(),
{
    if keys.len() == 0 {
        Seq::empty()
    } else {
        let r = path_overrides(keys.drop_last(), appdir, env);
        match env_lookup(env, keys.last()) {
            None => r,
            Some(v) => match path_var_override(v, appdir) {
                None => r,
                Some(o) => r.push((keys.last(), o)),
            },
        }
    }
}

/// The overrides of the single-path variables `keys`: each set to a path under
/// `appdir` is unset.
pub open spec fn value_overrides(keys: Seq<Seq<char>>, appdir: Seq<char>, env: EnvView) -> Seq<
    OverrideView,
>
    decreases keys.len(),
{
    if keys.len() == 0 {
        Seq::empty()
    } else {
        let r = value_overrides(keys.drop_last(), appdir, env);
        match env_lookup(env, keys.last()) {
            Some(v) => if path_prefix(v, appdir) {
                r.push((keys.last(), None))
            } else {
                r
            },
            None => r,
        }
    }
}

/// The overrides of the marker variables `keys`: each one set is unset.
pub open spec fn marker_overrides(keys: Seq<Seq<char>>, env: EnvView) -> Seq<OverrideView>
    decreases keys.len(),
{
    if keys.len() == 0 {
        Seq::empty()
    } else {
        let r = marker_overrides(keys.drop_last(), env);
        if env_lookup(env, keys.last()) is Some {
            r.push((keys.last(), None))
        } else {
            r
        }
    }
}

/// All the overrides for an AppImage mounted at `appdir` in `env`: those of
/// the search-path variables, then of the single-path variables, then of the
/// markers, each group in the order of its list.
pub open spec fn appimage_overrides_spec(appdir: Seq<char>, env: EnvView) -> Seq<OverrideView> {
    path_overrides(names_view(APPIMAGE_PATH_VARS@), appdir, env) + value_overrides(
        names_view(APPIMAGE_VALUE_VARS@),
        appdir,
        env,
    ) + marker_overrides(names_view(APPIMAGE_MARKER_VARS@), env)
}

/// The value of `key` in `env` (see `env_lookup`).
pub fn lookup_env(env: &Vec<(String, String)>, key: &str) -> (r: Option<String>)
    ensures
        opt_string_view(r) == env_lookup(env_view(env@), key@),
{
    let k = String::from_str(key);
    let ghost full = env_view(env@);
    let mut i: usize = 0;
    assert(full.skip(0) =~= full);
    while i < env.len()
        invariant
            full == env_view(env@),
            i <= env@.len(),
            k@ == key@,
            env_lookup(full, key@) == env_lookup(full.skip(i as int), key@),
        decreases env@.len() - i,
    {
        let ghost rest = full.skip(i as int);
        assert(rest[0] == (env@[i as int].0@, env@[i as int].1@));
        if env[i].0 == k {
            return Some(env[i].1.clone());
        }
        assert(rest.drop_first() =~= full.skip(i + 1));
        i = i + 1;
    }
    assert(full.skip(env@.len() as int) =~= Seq::<(Seq<char>, Seq<char>)>::empty());
    None
}

/// The override of a search-path variable with value `value` (see
/// `path_var_override`).
pub fn path_var_override_of(value: &str, appdir: &str) -> (r: Option<Option<String>>)
    ensures
        match r {
            None => path_var_override(value@, appdir@) is None,
            Some(o) => path_var_override(value@, appdir@) == Some(opt_string_view(o)),
        },
{
    let v = chars_of(value);
    let entries = split_bounds(&v, 0, v.len(), Separator::Char(':'));
    let ghost es = pieces_of(v@, entries@);
    assert(v@.subrange(0, v@.len() as int) =~= v@);
    let mut kept: Vec<(usize, usize)> = Vec::new();
    let mut k: usize = 0;
    while k < entries.len()
        invariant
            k <= entries@.len(),
            es == pieces_of(v@, entries@),
            bounds_within(entries@, 0, v@.len() as int),
            bounds_within(kept@, 0, v@.len() as int),
            pieces_of(v@, kept@) == kept_entries(es.take(k as int), appdir@),
        decreases entries@.len() - k,
    {
        let b = entries[k];
        assert(es.take(k + 1).drop_last() =~= es.take(k as int));
        assert(es.take(k + 1).last() == v@.subrange(b.0 as int, b.1 as int));
        if b.0 < b.1 {
            let entry = string_of_range(&v, b.0, b.1);
            if !path_starts_with(entry.as_str(), appdir) {
                kept.push(b);
                assert(pieces_of(v@, kept@) =~= pieces_of(v@, kept@.drop_last()).push(
                    v@.subrange(b.0 as int, b.1 as int),
                ));
            }
        }
        k = k + 1;
    }
    assert(es.take(entries@.len() as int) =~= es);
    proof {
        lemma_kept_len(es, appdir@);
    }
    if kept.len() == entries.len() {
        None
    } else if kept.len() == 0 {
        Some(None)
    } else {
        let joined = join_bounds(&v, &kept, kept.len(), ':');
        assert(pieces_of(v@, kept@).take(kept@.len() as int) =~= pieces_of(v@, kept@));
        Some(Some(joined))
    }
}

/// Every kept entry is an entry that stays: it is not empty and not under
/// `appdir`.
pub proof fn lemma_kept_entries_stay(es: Seq<Seq<char>>, appdir: Seq<char>)
    ensures
        forall|i: int|
            0 <= i < kept_entries(es, appdir).len() ==> keeps_entry(
                #[trigger] kept_entries(es, appdir)[i],
                appdir,
            ) && es.contains(kept_entries(es, appdir)[i]),
    decreases es.len(),
{
    if es.len() > 0 {
        let init = es.drop_last();
        lemma_kept_entries_stay(init, appdir);
        let r = kept_entries(init, appdir);
        assert forall|i: int| 0 <= i < kept_entries(es, appdir).len() implies keeps_entry(
            #[trigger] kept_entries(es, appdir)[i],
            appdir,
        ) && es.contains(kept_entries(es, appdir)[i]) by {
            if i < r.len() {
                assert(kept_entries(es, appdir)[i] == r[i]);
                let j = choose|j: int| 0 <= j < init.len() && init[j] == r[i];
                assert(es[j] == r[i]);
            } else {
                assert(es[es.len() - 1] == kept_entries(es, appdir)[i]);
            }
        }
    }
}

/// What becomes of a search-path variable with value `value`: it is left
/// alone exactly when every entry stays (is neither empty nor under
/// `appdir`); it is unset only when no entry stays; otherwise it is set to
/// the entries that stay, in order, joined by `:`, so that splitting the new
/// value again gives just those, none of them under the mount.
pub proof fn lemma_path_override_laws(value: Seq<char>, appdir: Seq<char>)
    ensures
        path_var_override(value, appdir) is None <==> forall|i: int|
            0 <= i < split_by(value, Separator::Char(':')).len() ==> keeps_entry(
                #[trigger] split_by(value, Separator::Char(':'))[i],
                appdir,
            ),
        path_var_override(value, appdir) is Some ==> kept_entries(
            split_by(value, Separator::Char(':')),
            appdir,
        ).len() < split_by(value, Separator::Char(':')).len(),
        path_var_override(value, appdir) matches Some(None) ==> kept_entries(
            split_by(value, Separator::Char(':')),
            appdir,
        ).len() == 0,
        path_var_override(value, appdir) is Some && kept_entries(
            split_by(value, Separator::Char(':')),
            appdir,
        ).len() > 0 ==> path_var_override(value, appdir) == Some(
            Some(
                join_spec(
                    kept_entries(split_by(value, Separator::Char(':')), appdir),
                    seq![':'],
                ),
            ),
        ),
        path_var_override(value, appdir) matches Some(Some(w)) ==> split_by(
            w,
            Separator::Char(':'),
        ) == kept_entries(split_by(value, Separator::Char(':')), appdir) && forall|i: int|
            0 <= i < split_by(w, Separator::Char(':')).len() ==> keeps_entry(
                #[trigger] split_by(w, Separator::Char(':'))[i],
                appdir,
            ),
{
    let sep = Separator::Char(':');
    let es = split_by(value, sep);
    let kept = kept_entries(es, appdir);
    lemma_kept_len(es, appdir);
    lemma_kept_entries_stay(es, appdir);
    if forall|i: int| 0 <= i < es.len() ==> keeps_entry(#[trigger] es[i], appdir) {
        lemma_kept_all(es, appdir);
    } else {
        let i = choose|i: int| 0 <= i < es.len() && !keeps_entry(#[trigger] es[i], appdir);
        lemma_kept_shorter(es, appdir, i);
    }
    if path_var_override(value, appdir) matches Some(Some(w)) {
        lemma_split_pieces_lack_separator(value, sep);
        assert forall|i: int, k: int| 0 <= i < kept.len() && 0 <= k < kept[i].len() implies !is_separator(
            #[trigger] kept[i][k],
            sep,
        ) by {
            assert(es.contains(kept[i]));
            let j = choose|j: int| 0 <= j < es.len() && es[j] == kept[i];
            assert(es[j][k] == kept[i][k]);
        }
        lemma_split_join(kept, ':', sep);
    }
}

/// When every entry stays, the kept entries are all of them.
proof fn lemma_kept_all(es: Seq<Seq<char>>, appdir: Seq<char>)
    requires
        forall|i: int| 0 <= i < es.len() ==> keeps_entry(#[trigger] es[i], appdir),
    ensures
        kept_entries(es, appdir) == es,
    decreases es.len(),
{
    if es.len() > 0 {
        let init = es.drop_last();
        assert forall|i: int| 0 <= i < init.len() implies keeps_entry(#[trigger] init[i], appdir) by {
            assert(init[i] == es[i]);
        }
        lemma_kept_all(init, appdir);
        assert(keeps_entry(es[es.len() - 1], appdir));
        assert(init.push(es.last()) =~= es);
    }
}

/// When entry `i` does not stay, fewer entries are kept than there are.
proof fn lemma_kept_shorter(es: Seq<Seq<char>>, appdir: Seq<char>, i: int)
    requires
        0 <= i < es.len(),
        !keeps_entry(es[i], appdir),
    ensures
        kept_entries(es, appdir).len() < es.len(),
    decreases es.len(),
{
    let init = es.drop_last();
    lemma_kept_len(init, appdir);
    if i < es.len() - 1 {
        assert(init[i] == es[i]);
        lemma_kept_shorter(init, appdir, i);
    }
}

/// The kept entries are never more than the entries.
proof fn lemma_kept_len(es: Seq<Seq<char>>, appdir: Seq<char>)
    ensures
        kept_entries(es, appdir).len() <= es.len(),
    decreases es.len(),
{
    if es.len() > 0 {
        lemma_kept_len(es.drop_last(), appdir);
    }
}

/// The overrides that undo an AppImage mounted at `appdir`, given the
/// process environment `env` (see `appimage_overrides_spec`): search paths
/// lose their entries under the mount, single paths into it are unset, and
/// the runtime's marker variables are unset.
pub fn compute_appimage_env_overrides(appdir: &str, env: &Vec<(String, String)>) -> (r: Vec<
    (String, Option<String>),
>)
    ensures
        overrides_view(r@) == appimage_overrides_spec(appdir@, env_view(env@)),
{
    let mut out: Vec<(String, Option<String>)> = Vec::new();
    let ghost ev = env_view(env@);

    let ghost pkeys = names_view(APPIMAGE_PATH_VARS@);
    let mut i: usize = 0;
    assert(pkeys.take(0) =~= Seq::<Seq<char>>::empty());
    assert(overrides_view(out@) =~= Seq::<OverrideView>::empty());
    while i < 10
        invariant
            i <= 10,
            ev == env_view(env@),
            pkeys == names_view(APPIMAGE_PATH_VARS@),
            pkeys.len() == 10,
            overrides_view(out@) == path_overrides(pkeys.take(i as int), appdir@, ev),
        decreases 10 - i,
    {
        let key = APPIMAGE_PATH_VARS[i];
        assert(pkeys.take(i + 1).drop_last() =~= pkeys.take(i as int));
        assert(pkeys.take(i + 1).last() == key@);
        match lookup_env(env, key) {
            None => {},
            Some(v) => match path_var_override_of(v.as_str(), appdir) {
                None => {},
                Some(o) => {
                    out.push((String::from_str(key), o));
                    assert(overrides_view(out@) =~= overrides_view(out@.drop_last()).push(
                        (key@, opt_string_view(o)),
                    ));
                },
            },
        }
        i = i + 1;
    }
    assert(pkeys.take(10) =~= pkeys);
    let ghost after_paths = overrides_view(out@);

    let ghost vkeys = names_view(APPIMAGE_VALUE_VARS@);
    let mut j: usize = 0;
    assert(vkeys.take(0) =~= Seq::<Seq<char>>::empty());
    assert(after_paths + Seq::<OverrideView>::empty() =~= after_paths);
    while j < 4
        invariant
            j <= 4,
            ev == env_view(env@),
            vkeys == names_view(APPIMAGE_VALUE_VARS@),
            vkeys.len() == 4,
            overrides_view(out@) == after_paths + value_overrides(vkeys.take(j as int), appdir@, ev),
        decreases 4 - j,
    {
        let key = APPIMAGE_VALUE_VARS[j];
        assert(vkeys.take(j + 1).drop_last() =~= vkeys.take(j as int));
        assert(vkeys.take(j + 1).last() == key@);
        match lookup_env(env, key) {
            None => {},
            Some(v) => {
                if path_starts_with(v.as_str(), appdir) {
                    out.push((String::from_str(key), None));
                    assert(overrides_view(out@) =~= overrides_view(out@.drop_last()).push(
                        (key@, None),
                    ));
                    assert(after_paths + value_overrides(vkeys.take(j + 1), appdir@, ev)
                        =~= (after_paths + value_overrides(vkeys.take(j as int), appdir@, ev)).push(
                        (key@, None),
                    ));
                }
            },
        }
        j = j + 1;
    }
    assert(vkeys.take(4) =~= vkeys);
    let ghost after_values = overrides_view(out@);

    let ghost mkeys = names_view(APPIMAGE_MARKER_VARS@);
    let mut m: usize = 0;
    assert(mkeys.take(0) =~= Seq::<Seq<char>>::empty());
    assert(after_values + Seq::<OverrideView>::empty() =~= after_values);
    while m < 3
        invariant
            m <= 3,
            ev == env_view(env@),
            mkeys == names_view(APPIMAGE_MARKER_VARS@),
            mkeys.len() == 3,
            overrides_view(out@) == after_values + marker_overrides(mkeys.take(m as int), ev),
        decreases 3 - m,
    {
        let key = APPIMAGE_MARKER_VARS[m];
        assert(mkeys.take(m + 1).drop_last() =~= mkeys.take(m as int));
        assert(mkeys.take(m + 1).last() == key@);
        if lookup_env(env, key).is_some() {
            out.push((String::from_str(key), None));
            assert(overrides_view(out@) =~= overrides_view(out@.drop_last()).push((key@, None)));
            assert(after_values + marker_overrides(mkeys.take(m + 1), ev) =~= (after_values
                + marker_overrides(mkeys.take(m as int), ev)).push((key@, None)));
        }
        m = m + 1;
    }
    assert(mkeys.take(3) =~= mkeys);
    out
}

} // verus!

verus! {

/// All the variable names the overrides look at, in order.
pub open spec fn all_var_names() -> Seq<Seq<char>> {
    names_view(APPIMAGE_PATH_VARS@) + names_view(APPIMAGE_VALUE_VARS@) + names_view(
        APPIMAGE_MARKER_VARS@,
    )
}

/// No variable name is listed twice.
pub proof fn lemma_var_names_distinct()
    ensures
        all_var_names().no_duplicates(),
        all_var_names().len() == 17,
{
    reveal_strlit("LD_LIBRARY_PATH");
    reveal_strlit("PATH");
    reveal_strlit("XDG_DATA_DIRS");
    reveal_strlit("GST_PLUGIN_SYSTEM_PATH");
    reveal_strlit("GST_PLUGIN_SYSTEM_PATH_1_0");
    reveal_strlit("GST_PLUGIN_PATH");
    reveal_strlit("GI_TYPELIB_PATH");
    reveal_strlit("GDK_PIXBUF_MODULEDIR");
    reveal_strlit("GIO_MODULE_DIR");
    reveal_strlit("GSETTINGS_SCHEMA_DIR");
    reveal_strlit("GDK_PIXBUF_MODULE_FILE");
    reveal_strlit("LD_PRELOAD");
    reveal_strlit("FONTCONFIG_FILE");
    reveal_strlit("FONTCONFIG_PATH");
    reveal_strlit("APPDIR");
    reveal_strlit("APPIMAGE");
    reveal_strlit("ARGV0");
    let a = all_var_names();
    assert(a.len() == 17);
    assert forall|i: int, j: int| 0 <= i < 17 && 0 <= j < 17 && i != j implies a[i] != a[j] by {
        if a[i] == a[j] {
            assert(a[i].len() == a[j].len());
            assert(a[i][0] == a[j][0]);
            assert(a[i][1] == a[j][1]);
            assert(a[i][a[i].len() - 1] == a[j][a[j].len() - 1]);
        }
    }
}


/// What the overrides do with variable `key`: `None` when it is left alone,
/// `Some(o)` when it is set to `o` (`None` to unset it).
pub open spec fn key_override(key: Seq<char>, appdir: Seq<char>, env: EnvView) -> Option<
    Option<Seq<char>>,
> {
    if names_view(APPIMAGE_PATH_VARS@).contains(key) {
        match env_lookup(env, key) {
            Some(v) => path_var_override(v, appdir),
            None => None,
        }
    } else if names_view(APPIMAGE_VALUE_VARS@).contains(key) {
        match env_lookup(env, key) {
            Some(v) => if path_prefix(v, appdir) {
                Some(None)
            } else {
                None
            },
            None => None,
        }
    } else if names_view(APPIMAGE_MARKER_VARS@).contains(key) {
        if env_lookup(env, key) is Some {
            Some(None)
        } else {
            None
        }
    } else {
        None
    }
}

/// The overrides of `keys`, one for each key that is not left alone, in the
/// order of `keys`.
pub open spec fn overrides_in_order(keys: Seq<Seq<char>>, appdir: Seq<char>, env: EnvView) -> Seq<
    OverrideView,
>
    decreases keys.len(),
{
    if keys.len() == 0 {
        Seq::empty()
    } else {
        let r = overrides_in_order(keys.drop_last(), appdir, env);
        match key_override(keys.last(), appdir, env) {
            Some(o) => r.push((keys.last(), o)),
            None => r,
        }
    }
}

/// The overrides of the keys of `a` then `b`: those of `a`, then those of `b`.
proof fn lemma_overrides_append(a: Seq<Seq<char>>, b: Seq<Seq<char>>, appdir: Seq<char>, env: EnvView)
    ensures
        overrides_in_order(a + b, appdir, env) == overrides_in_order(a, appdir, env)
            + overrides_in_order(b, appdir, env),
    decreases b.len(),
{
    if b.len() == 0 {
        assert(a + b =~= a);
        assert(overrides_in_order(a, appdir, env) + overrides_in_order(b, appdir, env)
            =~= overrides_in_order(a, appdir, env));
    } else {
        lemma_overrides_append(a, b.drop_last(), appdir, env);
        assert((a + b).drop_last() =~= a + b.drop_last());
        assert((a + b).last() == b.last());
        let x = overrides_in_order(a, appdir, env);
        let y = overrides_in_order(b.drop_last(), appdir, env);
        match key_override(b.last(), appdir, env) {
            Some(o) => {
                assert((x + y).push((b.last(), o)) =~= x + y.push((b.last(), o)));
            },
            None => {},
        }
    }
}

/// The three lists of names share none.
proof fn lemma_var_groups_disjoint(key: Seq<char>)
    ensures
        names_view(APPIMAGE_PATH_VARS@).contains(key) ==> !names_view(
            APPIMAGE_VALUE_VARS@,
        ).contains(key) && !names_view(APPIMAGE_MARKER_VARS@).contains(key),
        names_view(APPIMAGE_VALUE_VARS@).contains(key) ==> !names_view(
            APPIMAGE_MARKER_VARS@,
        ).contains(key),
{
    lemma_var_names_distinct();
    let p = names_view(APPIMAGE_PATH_VARS@);
    let v = names_view(APPIMAGE_VALUE_VARS@);
    let m = names_view(APPIMAGE_MARKER_VARS@);
    let a = all_var_names();
    assert(p.len() == 10 && v.len() == 4 && m.len() == 3);
    if p.contains(key) {
        let i = choose|i: int| 0 <= i < p.len() && p[i] == key;
        assert(a[i] == key);
        if v.contains(key) {
            let j = choose|j: int| 0 <= j < v.len() && v[j] == key;
            assert(a[10 + j] == key);
        }
        if m.contains(key) {
            let j = choose|j: int| 0 <= j < m.len() && m[j] == key;
            assert(a[14 + j] == key);
        }
    }
    if v.contains(key) && m.contains(key) {
        let i = choose|i: int| 0 <= i < v.len() && v[i] == key;
        let j = choose|j: int| 0 <= j < m.len() && m[j] == key;
        assert(a[10 + i] == key);
        assert(a[14 + j] == key);
    }
}

/// The overrides of the search-path variables are those of `key_override`.
proof fn lemma_path_group(keys: Seq<Seq<char>>, appdir: Seq<char>, env: EnvView)
    requires
        forall|i: int| 0 <= i < keys.len() ==> names_view(APPIMAGE_PATH_VARS@).contains(
            #[trigger] keys[i],
        ),
    ensures
        path_overrides(keys, appdir, env) == overrides_in_order(keys, appdir, env),
    decreases keys.len(),
{
    if keys.len() > 0 {
        let init = keys.drop_last();
        assert forall|i: int| 0 <= i < init.len() implies names_view(
            APPIMAGE_PATH_VARS@,
        ).contains(#[trigger] init[i]) by {
            assert(init[i] == keys[i]);
        }
        lemma_path_group(init, appdir, env);
        assert(names_view(APPIMAGE_PATH_VARS@).contains(keys[keys.len() - 1]));
    }
}

/// The overrides of the single-path variables are those of `key_override`.
proof fn lemma_value_group(keys: Seq<Seq<char>>, appdir: Seq<char>, env: EnvView)
    requires
        forall|i: int| 0 <= i < keys.len() ==> names_view(APPIMAGE_VALUE_VARS@).contains(
            #[trigger] keys[i],
        ),
    ensures
        value_overrides(keys, appdir, env) == overrides_in_order(keys, appdir, env),
    decreases keys.len(),
{
    if keys.len() > 0 {
        let init = keys.drop_last();
        assert forall|i: int| 0 <= i < init.len() implies names_view(
            APPIMAGE_VALUE_VARS@,
        ).contains(#[trigger] init[i]) by {
            assert(init[i] == keys[i]);
        }
        lemma_value_group(init, appdir, env);
        assert(names_view(APPIMAGE_VALUE_VARS@).contains(keys[keys.len() - 1]));
        lemma_var_groups_disjoint(keys.last());
    }
}

/// The overrides of the marker variables are those of `key_override`.
proof fn lemma_marker_group(keys: Seq<Seq<char>>, appdir: Seq<char>, env: EnvView)
    requires
        forall|i: int| 0 <= i < keys.len() ==> names_view(APPIMAGE_MARKER_VARS@).contains(
            #[trigger] keys[i],
        ),
    ensures
        marker_overrides(keys, env) == overrides_in_order(keys, appdir, env),
    decreases keys.len(),
{
    if keys.len() > 0 {
        let init = keys.drop_last();
        assert forall|i: int| 0 <= i < init.len() implies names_view(
            APPIMAGE_MARKER_VARS@,
        ).contains(#[trigger] init[i]) by {
            assert(init[i] == keys[i]);
        }
        lemma_marker_group(init, appdir, env);
        assert(names_view(APPIMAGE_MARKER_VARS@).contains(keys[keys.len() - 1]));
        lemma_var_groups_disjoint(keys.last());
    }
}

/// For distinct `keys`: each override is of one of the keys, with the value
/// that `key_override` gives it; a key gets an override exactly when
/// `key_override` says so; and the overrides come in the order of `keys`.
proof fn lemma_overrides_in_order(keys: Seq<Seq<char>>, appdir: Seq<char>, env: EnvView)
    requires
        keys.no_duplicates(),
    ensures
        forall|i: int|
            0 <= i < overrides_in_order(keys, appdir, env).len() ==> keys.contains(
                (#[trigger] overrides_in_order(keys, appdir, env)[i]).0,
            ) && key_override(overrides_in_order(keys, appdir, env)[i].0, appdir, env) == Some(
                overrides_in_order(keys, appdir, env)[i].1,
            ),
        forall|j: int|
            0 <= j < keys.len() ==> ((key_override(#[trigger] keys[j], appdir, env) is Some) <==> exists|
                i: int,
            |
                0 <= i < overrides_in_order(keys, appdir, env).len() && overrides_in_order(
                    keys,
                    appdir,
                    env,
                )[i].0 == keys[j]),
        forall|i1: int, i2: int, j1: int, j2: int|
            0 <= i1 < i2 < overrides_in_order(keys, appdir, env).len() && 0 <= j1 < keys.len() && 0
                <= j2 < keys.len() && #[trigger] keys[j1] == (#[trigger] overrides_in_order(
                keys,
                appdir,
                env,
            )[i1]).0 && #[trigger] keys[j2] == (#[trigger] overrides_in_order(keys, appdir, env)[i2]).0
                ==> j1 < j2,
    decreases keys.len(),
{
    let r = overrides_in_order(keys, appdir, env);
    if keys.len() > 0 {
        let n = keys.len() - 1;
        let init = keys.drop_last();
        let last = keys.last();
        assert(init.no_duplicates()) by {
            assert forall|a: int, b: int| 0 <= a < init.len() && 0 <= b < init.len() && a != b implies init[a]
                != init[b] by {
                assert(init[a] == keys[a] && init[b] == keys[b]);
            }
        }
        lemma_overrides_in_order(init, appdir, env);
        let ri = overrides_in_order(init, appdir, env);
        assert(!init.contains(last)) by {
            if init.contains(last) {
                let a = choose|a: int| 0 <= a < init.len() && init[a] == last;
                assert(keys[a] == keys[n]);
            }
        }
        assert forall|i: int| 0 <= i < r.len() implies keys.contains((#[trigger] r[i]).0)
            && key_override(r[i].0, appdir, env) == Some(r[i].1) by {
            if i < ri.len() {
                assert(r[i] == ri[i]);
                assert(init.contains(ri[i].0));
                let a = choose|a: int| 0 <= a < init.len() && init[a] == ri[i].0;
                assert(keys[a] == init[a]);
            } else {
                assert(keys[n] == last);
            }
        }
        assert forall|j: int| 0 <= j < keys.len() implies ((key_override(
            #[trigger] keys[j],
            appdir,
            env,
        ) is Some) <==> exists|i: int| 0 <= i < r.len() && r[i].0 == keys[j]) by {
            if j < n {
                assert(keys[j] == init[j]);
                assert(keys[j] != last);
                if key_override(keys[j], appdir, env) is Some {
                    let i = choose|i: int| 0 <= i < ri.len() && ri[i].0 == init[j];
                    assert(r[i] == ri[i]);
                }
                if exists|i: int| 0 <= i < r.len() && r[i].0 == keys[j] {
                    let i = choose|i: int| 0 <= i < r.len() && r[i].0 == keys[j];
                    if i < ri.len() {
                        assert(r[i] == ri[i]);
                    }
                }
            } else {
                if key_override(keys[j], appdir, env) is Some {
                    assert(r[r.len() - 1].0 == last);
                } else {
                    assert(r == ri);
                    if exists|i: int| 0 <= i < r.len() && r[i].0 == keys[j] {
                        let i = choose|i: int| 0 <= i < r.len() && r[i].0 == keys[j];
                        assert(init.contains(ri[i].0));
                    }
                }
            }
        }
        assert forall|i1: int, i2: int, j1: int, j2: int|
            0 <= i1 < i2 < r.len() && 0 <= j1 < keys.len() && 0 <= j2 < keys.len() && #[trigger] keys[j1]
                == (#[trigger] r[i1]).0 && #[trigger] keys[j2] == (#[trigger] r[i2]).0 implies j1
            < j2 by {
            assert(r[i1] == ri[i1]);
            assert(init.contains(ri[i1].0));
            let a1 = choose|a: int| 0 <= a < init.len() && init[a] == ri[i1].0;
            assert(keys[a1] == keys[j1]);
            assert(a1 == j1);
            if i2 < ri.len() {
                assert(r[i2] == ri[i2]);
                assert(init.contains(ri[i2].0));
                let a2 = choose|a: int| 0 <= a < init.len() && init[a] == ri[i2].0;
                assert(keys[a2] == keys[j2]);
                assert(a2 == j2);
                assert(init[j1] == ri[i1].0 && init[j2] == ri[i2].0);
            } else {
                assert(r[i2].0 == last);
                assert(keys[j2] == keys[n]);
                assert(j2 == n);
            }
        }
    }
}

/// The overrides as a whole, over the 17 names that `all_var_names` lists:
/// each override is of a listed variable, with the value that `key_override`
/// gives it (search paths lose their entries under the mount, single paths
/// into it and the runtime's markers are unset); a listed variable gets an
/// override exactly when `key_override` says so, and every other variable is
/// left alone; the overrides come in the order of the list, so no variable
/// gets two.
pub proof fn lemma_appimage_overrides_laws(appdir: Seq<char>, env: EnvView)
    ensures
        forall|i: int|
            0 <= i < appimage_overrides_spec(appdir, env).len() ==> all_var_names().contains(
                (#[trigger] appimage_overrides_spec(appdir, env)[i]).0,
            ) && key_override(appimage_overrides_spec(appdir, env)[i].0, appdir, env) == Some(
                appimage_overrides_spec(appdir, env)[i].1,
            ),
        forall|j: int|
            0 <= j < all_var_names().len() ==> ((key_override(
                #[trigger] all_var_names()[j],
                appdir,
                env,
            ) is Some) <==> exists|i: int|
                0 <= i < appimage_overrides_spec(appdir, env).len() && appimage_overrides_spec(
                    appdir,
                    env,
                )[i].0 == all_var_names()[j]),
        forall|i1: int, i2: int, j1: int, j2: int|
            0 <= i1 < i2 < appimage_overrides_spec(appdir, env).len() && 0 <= j1
                < all_var_names().len() && 0 <= j2 < all_var_names().len() && #[trigger] all_var_names()[j1]
                == (#[trigger] appimage_overrides_spec(appdir, env)[i1]).0
                && #[trigger] all_var_names()[j2] == (#[trigger] appimage_overrides_spec(
                appdir,
                env,
            )[i2]).0 ==> j1 < j2,
        forall|i1: int, i2: int|
            0 <= i1 < i2 < appimage_overrides_spec(appdir, env).len() ==> (#[trigger] appimage_overrides_spec(
                appdir,
                env,
            )[i1]).0 != (#[trigger] appimage_overrides_spec(appdir, env)[i2]).0,
{
    let p = names_view(APPIMAGE_PATH_VARS@);
    let v = names_view(APPIMAGE_VALUE_VARS@);
    let m = names_view(APPIMAGE_MARKER_VARS@);
    assert forall|i: int| 0 <= i < p.len() implies p.contains(#[trigger] p[i]) by {}
    assert forall|i: int| 0 <= i < v.len() implies v.contains(#[trigger] v[i]) by {}
    assert forall|i: int| 0 <= i < m.len() implies m.contains(#[trigger] m[i]) by {}
    lemma_path_group(p, appdir, env);
    lemma_value_group(v, appdir, env);
    lemma_marker_group(m, appdir, env);
    lemma_overrides_append(p, v, appdir, env);
    lemma_overrides_append(p + v, m, appdir, env);
    let keys = all_var_names();
    assert(appimage_overrides_spec(appdir, env) == overrides_in_order(keys, appdir, env));
    lemma_var_names_distinct();
    lemma_overrides_in_order(keys, appdir, env);
    let r = appimage_overrides_spec(appdir, env);
    assert forall|i1: int, i2: int| 0 <= i1 < i2 < r.len() implies (#[trigger] r[i1]).0 != (
    #[trigger] r[i2]).0 by {
        assert(keys.contains(r[i1].0));
        let j = choose|j: int| 0 <= j < keys.len() && keys[j] == r[i1].0;
        if r[i1].0 == r[i2].0 {
            assert(keys[j] == r[i2].0);
        }
    }
}

} // verus!
