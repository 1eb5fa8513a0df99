//! What the user's commands do to the database: switching profiles,
//! editing, creating, deleting and ordering profiles, managing headphones,
//! importing, setting up and restoring the APO integration. Each command
//! computes the next database (or refuses with a message); storing it is the
//! commit protocol of [`crate::storage`].

use vstd::prelude::*;
use crate::apo::{device_guid, generate, generated_text};
use crate::decimal::Decimal;
use crate::ids::{is_uuid_text, new_id};
use crate::text::{chars_of, slice_of, string_of, trim, trimmed};
use crate::model::{
    binding_views, has_headphone, headphone_exists, headphone_views, result_view, Binding,
    BindingView, FilterView, Headphone, HeadphoneView, PointView, SettingsView, bindings_ordered,
    text_less,
    filter_views, find_profile, has_profile, is_stock, msg_filter_ids, point_views,
    profile_error, profile_views, stock_id, text, validate_profile, Database, DatabaseView,
    Filter, IntegrationView, Profile, ProfileView,
};

verus! {

// ---------------------------------------------------------------------------
// Finding profiles
// ---------------------------------------------------------------------------
/// `i` is the first position of a profile with this ID.
pub open spec fn is_first(ps: Seq<ProfileView>, id: Seq<char>, i: int) -> bool {
    &&& 0 <= i < ps.len()
    &&& ps[i].id == id
    &&& forall|j: int| 0 <= j < i ==> (#[trigger] ps[j]).id != id
}

/// The first position of a profile with this ID (meaningful when there is
/// one).
pub open spec fn first_index(ps: Seq<ProfileView>, id: Seq<char>) -> int {
    choose|i: int| is_first(ps, id, i)
}

pub proof fn lemma_first(ps: Seq<ProfileView>, id: Seq<char>, i: int)
    requires
        is_first(ps, id, i),
    ensures
        first_index(ps, id) == i,
{
    let k = first_index(ps, id);
    assert(is_first(ps, id, k));
    if k < i {
        assert(ps[k].id != id);
    } else if i < k {
        assert(ps[i].id != id);
    }
}

/// A profile with this ID has a first position.
pub proof fn lemma_first_exists(ps: Seq<ProfileView>, id: Seq<char>)
    requires
        has_profile(ps, id),
    ensures
        is_first(ps, id, first_index(ps, id)),
    decreases ps.len(),
{
    let pre = ps.drop_last();
    if has_profile(pre, id) {
        lemma_first_exists(pre, id);
        let k = first_index(pre, id);
        assert forall|j: int| 0 <= j < k implies (#[trigger] ps[j]).id != id by {
            assert(ps[j] == pre[j]);
        }
        assert(is_first(ps, id, k));
        lemma_first(ps, id, k);
    } else {
        let k = ps.len() - 1;
        let w = choose|w: int| 0 <= w < ps.len() && (#[trigger] ps[w]).id == id;
        if w < k {
            assert(pre[w] == ps[w]);
        }
        assert forall|j: int| 0 <= j < k implies (#[trigger] ps[j]).id != id by {
            assert(ps[j] == pre[j]);
            if ps[j].id == id {
                assert(pre[j].id == id);
            }
        }
        assert(is_first(ps, id, k));
        lemma_first(ps, id, k);
    }
}

/// The first profile with this ID.
pub fn locate(ps: &Vec<Profile>, id: &String) -> (r: Option<usize>)
    ensures
        r is Some == has_profile(profile_views(ps@), id@),
        r matches Some(i) ==> i == first_index(profile_views(ps@), id@) && i < ps.len(),
{
    let r = find_profile(ps, id);
    proof {
        if let Some(i) = r {
            let vs = profile_views(ps@);
            assert forall|j: int| 0 <= j < i implies (#[trigger] vs[j]).id != id@ by {
                assert(vs[j] == ps@[j]@);
            }
            lemma_first(vs, id@, i as int);
        }
    }
    r
}

// ---------------------------------------------------------------------------
// The active APO text
// ---------------------------------------------------------------------------
pub open spec fn msg_profile_not_found() -> Seq<char> {
    "Profile not found"@
}

pub open spec fn msg_endpoint() -> Seq<char> {
    "Select a valid Windows output endpoint"@
}

/// The database with another expected active APO text.
pub open spec fn with_active_text(db: DatabaseView, t: Seq<char>) -> DatabaseView {
    DatabaseView { integration: IntegrationView { expected_active: t, ..db.integration }, ..db }
}

/// The active profile (meaningful when there is one).
pub open spec fn active_of(db: DatabaseView) -> ProfileView {
    db.profiles[first_index(db.profiles, db.active_profile)]
}

/// How refreshing the expected active APO text of `old` may end: untouched
/// without integration; otherwise the text generated for the active profile
/// and the selected endpoint, or the reason it could not be generated. A
/// valid active profile on a valid endpoint always gets its text, except that
/// with two or more filters the fresh IDs of the read-back check may collide.
pub open spec fn regenerated(old: DatabaseView, r: Result<DatabaseView, Seq<char>>) -> bool {
    if !old.integration.installed {
        r == Ok::<DatabaseView, Seq<char>>(old)
    } else if !has_profile(old.profiles, old.active_profile) {
        r == Err::<DatabaseView, Seq<char>>(msg_profile_not_found())
    } else {
        let p = active_of(old);
        let d = old.integration.device_id;
        if !device_guid(d) {
            r == Err::<DatabaseView, Seq<char>>(msg_endpoint())
        } else if profile_error(p) is Some {
            r == Err::<DatabaseView, Seq<char>>(profile_error(p)->0)
        } else if p.filters.len() < 2 {
            r == Ok::<DatabaseView, Seq<char>>(with_active_text(old, generated_text(p, d)))
        } else {
            r == Ok::<DatabaseView, Seq<char>>(with_active_text(old, generated_text(p, d)))
                || r == Err::<DatabaseView, Seq<char>>(msg_filter_ids())
        }
    }
}

pub open spec fn db_result(r: Result<Database, String>) -> Result<DatabaseView, Seq<char>> {
    match r {
        Ok(db) => Ok(db@),
        Err(m) => Err(m@),
    }
}

/// Refreshes the expected active APO text after a change.
pub fn regenerate(next: Database) -> (r: Result<Database, String>)
    ensures
        regenerated(next@, db_result(r)),
{
    let mut next = next;
    if next.integration.installed {
        let i = match locate(&next.profiles, &next.active_profile) {
            Some(i) => i,
            None => return Err(text("Profile not found")),
        };
        let t = generate(&next.profiles[i], next.integration.device_id.as_str());
        proof {
            assert(profile_views(next.profiles@)[i as int] == next.profiles@[i as int]@);
        }
        let t = match t {
            Ok(t) => t,
            Err(m) => return Err(m),
        };
        next.integration.expected_active = t;
    }
    Ok(next)
}

// ---------------------------------------------------------------------------
// Switching profiles
// ---------------------------------------------------------------------------
pub open spec fn msg_setup_first() -> Seq<char> {
    "Complete the one-time APO setup first"@
}

/// The database after choosing profile `id`: it becomes active, and unless
/// it is Stock it also becomes the last enabled profile and selects its
/// headphone.
pub open spec fn switched(db: DatabaseView, id: Seq<char>) -> DatabaseView {
    let p = db.profiles[first_index(db.profiles, id)];
    if id != stock_id() {
        DatabaseView {
            selected_headphone: p.headphone_id,
            last_enabled: id,
            active_profile: id,
            ..db
        }
    } else {
        DatabaseView { active_profile: id, ..db }
    }
}

pub open spec fn activation_of(db: DatabaseView, id: Seq<char>, r: Result<DatabaseView, Seq<char>>) -> bool {
    if !db.integration.installed {
        r == Err::<DatabaseView, Seq<char>>(msg_setup_first())
    } else if !has_profile(db.profiles, id) {
        r == Err::<DatabaseView, Seq<char>>(msg_profile_not_found())
    } else {
        regenerated(switched(db, id), r)
    }
}

/// The database to commit, and apply to APO, when profile `id` is
/// activated.
pub fn activation(db: &Database, id: &String) -> (r: Result<Database, String>)
    ensures
        activation_of(db@, id@, db_result(r)),
{
    if !db.integration.installed {
        return Err(text("Complete the one-time APO setup first"));
    }
    let i = match locate(&db.profiles, id) {
        Some(i) => i,
        None => return Err(text("Profile not found")),
    };
    proof {
        assert(profile_views(db.profiles@)[i as int] == db.profiles@[i as int]@);
    }
    let mut next = db.copied();
    if !is_stock(id) {
        next.selected_headphone = db.profiles[i].headphone_id.clone();
        next.last_enabled = id.clone();
    }
    next.active_profile = id.clone();
    regenerate(next)
}

/// The profile that toggling EQ activates: the last enabled one when Stock
/// is active, otherwise Stock.
pub open spec fn toggled(db: DatabaseView) -> Seq<char> {
    if db.active_profile == stock_id() {
        db.last_enabled
    } else {
        stock_id()
    }
}

pub fn toggle_target(db: &Database) -> (r: String)
    ensures
        r@ == toggled(db@),
{
    if is_stock(&db.active_profile) {
        db.last_enabled.clone()
    } else {
        let r = text("stock");
        proof {
            reveal_strlit("stock");
        }
        r
    }
}

// ---------------------------------------------------------------------------
// Editing a profile
// ---------------------------------------------------------------------------
fn same_filter(a: &Filter, b: &Filter) -> (r: bool)
    ensures
        r == (a@ == b@),
{
    a.id == b.id && a.kind == b.kind && a.enabled == b.enabled && a.frequency.units
        == b.frequency.units && a.gain.units == b.gain.units && a.q.units == b.q.units
}

/// Whether two profiles hold the same values.
pub fn same_profile(a: &Profile, b: &Profile) -> (r: bool)
    ensures
        r == (a@ == b@),
{
    if !(a.schema_version == b.schema_version && a.id == b.id && a.name == b.name && a.icon
        == b.icon && a.headphone_id == b.headphone_id && a.preamp.units == b.preamp.units
        && a.provenance == b.provenance && a.filters.len() == b.filters.len()
        && a.graphic_eq.len() == b.graphic_eq.len()) {
        assert(a@.filters.len() == a.filters.len() && b@.filters.len() == b.filters.len());
        assert(a@.graphic_eq.len() == a.graphic_eq.len() && b@.graphic_eq.len() == b.graphic_eq.len());
        return false;
    }
    let mut i: usize = 0;
    while i < a.filters.len()
        invariant
            a.filters.len() == b.filters.len(),
            i <= a.filters.len(),
            forall|k: int| 0 <= k < i ==> (#[trigger] a.filters@[k])@ == b.filters@[k]@,
        decreases a.filters.len() - i,
    {
        if !same_filter(&a.filters[i], &b.filters[i]) {
            assert(filter_views(a.filters@)[i as int] != filter_views(b.filters@)[i as int]);
            return false;
        }
        i += 1;
    }
    let mut j: usize = 0;
    while j < a.graphic_eq.len()
        invariant
            a.graphic_eq.len() == b.graphic_eq.len(),
            j <= a.graphic_eq.len(),
            forall|k: int| 0 <= k < j ==> (#[trigger] a.graphic_eq@[k])@ == b.graphic_eq@[k]@,
        decreases a.graphic_eq.len() - j,
    {
        let (x, y) = (a.graphic_eq[j], b.graphic_eq[j]);
        if !(x.frequency.units == y.frequency.units && x.gain.units == y.gain.units) {
            assert(point_views(a.graphic_eq@)[j as int] != point_views(b.graphic_eq@)[j as int]);
            return false;
        }
        j += 1;
    }
    assert(filter_views(a.filters@) =~= filter_views(b.filters@));
    assert(point_views(a.graphic_eq@) =~= point_views(b.graphic_eq@));
    true
}

pub open spec fn msg_stock_edit() -> Seq<char> {
    "Stock cannot be edited"@
}

pub open spec fn msg_stale() -> Seq<char> {
    "This profile changed elsewhere. Reopen it to load the latest values before editing."@
}

/// The database with profile `i` replaced.
pub open spec fn with_profile(db: DatabaseView, i: int, p: ProfileView) -> DatabaseView {
    DatabaseView { profiles: db.profiles.update(i, p), ..db }
}

/// An editor's draft is stale when the profile it was opened from differs
/// from the stored one and the edit does not already equal the stored one.
pub open spec fn stale(expected: Option<ProfileView>, stored: ProfileView, p: ProfileView) -> bool {
    expected matches Some(old) && old != stored && p != stored
}

/// How saving an edited profile ends: its validation message; a missing or
/// Stock profile; a stale draft; or the database with the profile replaced
/// and the active APO text refreshed, applied to APO when the profile is the
/// active one.
pub open spec fn edit_of(
    db: DatabaseView,
    p: ProfileView,
    expected: Option<ProfileView>,
    r: Result<(DatabaseView, bool), Seq<char>>,
) -> bool {
    if profile_error(p) is Some {
        r == Err::<(DatabaseView, bool), Seq<char>>(profile_error(p)->0)
    } else if !has_profile(db.profiles, p.id) {
        r == Err::<(DatabaseView, bool), Seq<char>>(msg_profile_not_found())
    } else if p.id == stock_id() {
        r == Err::<(DatabaseView, bool), Seq<char>>(msg_stock_edit())
    } else if stale(expected, db.profiles[first_index(db.profiles, p.id)], p) {
        r == Err::<(DatabaseView, bool), Seq<char>>(msg_stale())
    } else {
        let mid = with_profile(db, first_index(db.profiles, p.id), p);
        match r {
            Ok((n, apply)) => apply == (p.id == db.active_profile) && regenerated(mid, Ok(n)),
            Err(m) => regenerated(mid, Err(m)),
        }
    }
}

pub open spec fn opt_profile(o: Option<Profile>) -> Option<ProfileView> {
    match o {
        Some(p) => Some(p@),
        None => None,
    }
}

pub open spec fn saving_result(r: Result<(Database, bool), String>) -> Result<(DatabaseView, bool), Seq<char>> {
    match r {
        Ok((db, apply)) => Ok((db@, apply)),
        Err(m) => Err(m@),
    }
}

/// The database to commit after the editor saves `profile`, opened from
/// `expected`, and whether to apply it to APO.
pub fn profile_saved(db: &Database, profile: Profile, expected: &Option<Profile>) -> (r: Result<(Database, bool), String>)
    ensures
        edit_of(db@, profile@, opt_profile(*expected), saving_result(r)),
{
    match validate_profile(&profile) {
        Err(m) => return Err(m),
        Ok(()) => {},
    }
    let i = match locate(&db.profiles, &profile.id) {
        Some(i) => i,
        None => return Err(text("Profile not found")),
    };
    if is_stock(&profile.id) {
        return Err(text("Stock cannot be edited"));
    }
    proof {
        assert(profile_views(db.profiles@)[i as int] == db.profiles@[i as int]@);
    }
    let is_stale = match expected {
        Some(old) => !same_profile(old, &db.profiles[i]) && !same_profile(&profile, &db.profiles[i]),
        None => false,
    };
    if is_stale {
        return Err(text("This profile changed elsewhere. Reopen it to load the latest values before editing."));
    }
    let apply = profile.id == db.active_profile;
    let ghost pv = profile@;
    let mut next = db.copied();
    next.profiles.set(i, profile);
    proof {
        assert(profile_views(next.profiles@) =~= db@.profiles.update(i as int, pv));
    }
    match regenerate(next) {
        Ok(n) => Ok((n, apply)),
        Err(m) => Err(m),
    }
}

// ---------------------------------------------------------------------------
// Creating, deleting and ordering profiles
// ---------------------------------------------------------------------------
/// Whether a string is this text.
pub fn is_text(s: &String, lit: &str) -> (r: bool)
    ensures
        r == (s@ == lit@),
{
    *s == text(lit)
}

/// A new, empty profile for the selected headphone.
pub open spec fn blank_profile(db: DatabaseView) -> ProfileView {
    ProfileView {
        schema_version: 1,
        id: Seq::empty(),
        name: "New profile"@,
        icon: "headphones"@,
        headphone_id: db.selected_headphone,
        preamp: 0,
        filters: Seq::empty(),
        graphic_eq: Seq::empty(),
        provenance: "Created in Ananda Control"@,
    }
}

/// The name of a copy: the first 70 characters of the name and ` copy`.
pub open spec fn copy_name(n: Seq<char>) -> Seq<char> {
    n.take(if n.len() > 70 { 70 } else { n.len() as int }) + " copy"@
}

pub open spec fn copy_of(p: ProfileView) -> ProfileView {
    ProfileView { name: copy_name(p.name), provenance: "Copy of "@ + copy_name(p.name), ..p }
}

/// The database with `p` placed just before the last profile (Stock).
pub open spec fn inserted(db: DatabaseView, p: ProfileView) -> DatabaseView {
    DatabaseView { profiles: db.profiles.insert(db.profiles.len() - 1, p), ..db }
}

/// Bindings without those of profile `id`, in order.
pub open spec fn unbound(bs: Seq<BindingView>, id: Seq<char>) -> Seq<BindingView>
    decreases bs.len(),
{
    if bs.len() == 0 {
        Seq::empty()
    } else if bs.last().profile == id {
        unbound(bs.drop_last(), id)
    } else {
        unbound(bs.drop_last(), id).push(bs.last())
    }
}

/// The database without profile `i` and without its hotkey.
pub open spec fn deleted(db: DatabaseView, i: int) -> DatabaseView {
    DatabaseView {
        profiles: db.profiles.remove(i),
        settings: SettingsView {
            shortcuts: unbound(db.settings.shortcuts, db.profiles[i].id),
            ..db.settings
        },
        ..db
    }
}

/// The database with profile `i` moved one place up or down, when there is
/// a place to move to.
pub open spec fn moved(db: DatabaseView, i: int, up: bool) -> DatabaseView {
    let other = if up { i - 1 } else { i + 1 };
    if 0 <= other < db.profiles.len() {
        DatabaseView {
            profiles: db.profiles.update(i, db.profiles[other]).update(other, db.profiles[i]),
            ..db
        }
    } else {
        db
    }
}

pub open spec fn msg_select_profile() -> Seq<char> {
    "Select a profile"@
}

pub open spec fn msg_missing_profile() -> Seq<char> {
    "Missing profile"@
}

pub open spec fn msg_delete_blocked() -> Seq<char> {
    "Switch to another enabled profile before deleting this profile. Stock cannot be deleted."@
}

pub open spec fn msg_unknown_profile_action() -> Seq<char> {
    "Unknown profile action"@
}

pub open spec fn position_of(db: DatabaseView, id: Option<Seq<char>>) -> Option<int> {
    match id {
        Some(x) => if has_profile(db.profiles, x) {
            Some(first_index(db.profiles, x))
        } else {
            None
        },
        None => None,
    }
}

/// How a profile action ends: the database to store and the ID of the
/// profile concerned, or the refusal. New profiles (created or duplicated)
/// get a fresh random ID.
pub open spec fn action_of(
    db: DatabaseView,
    action: Seq<char>,
    id: Option<Seq<char>>,
    r: Result<(DatabaseView, Seq<char>), Seq<char>>,
) -> bool {
    let index = position_of(db, id);
    if action == "create"@ || action == "duplicate"@ {
        if action == "duplicate"@ && index is None {
            r == Err::<(DatabaseView, Seq<char>), Seq<char>>(msg_select_profile())
        } else {
            let base = if action == "duplicate"@ {
                copy_of(db.profiles[index->0])
            } else {
                blank_profile(db)
            };
            r matches Ok((n, nid)) && is_uuid_text(nid) && n == inserted(
                db,
                ProfileView { id: nid, ..base },
            )
        }
    } else if action == "delete"@ {
        match index {
            None => r == Err::<(DatabaseView, Seq<char>), Seq<char>>(msg_missing_profile()),
            Some(i) => {
                let p = db.profiles[i];
                if p.id == stock_id() || p.id == db.active_profile || p.id == db.last_enabled {
                    r == Err::<(DatabaseView, Seq<char>), Seq<char>>(msg_delete_blocked())
                } else {
                    r == Ok::<(DatabaseView, Seq<char>), Seq<char>>((deleted(db, i), p.id))
                }
            },
        }
    } else if action == "up"@ || action == "down"@ {
        match index {
            None => r == Err::<(DatabaseView, Seq<char>), Seq<char>>(msg_missing_profile()),
            Some(i) => r == Ok::<(DatabaseView, Seq<char>), Seq<char>>(
                (moved(db, i, action == "up"@), id->0),
            ),
        }
    } else {
        r == Err::<(DatabaseView, Seq<char>), Seq<char>>(msg_unknown_profile_action())
    }
}

pub open spec fn opt_text(o: Option<String>) -> Option<Seq<char>> {
    match o {
        Some(s) => Some(s@),
        None => None,
    }
}

pub open spec fn named_result(r: Result<(Database, String), String>) -> Result<(DatabaseView, Seq<char>), Seq<char>> {
    match r {
        Ok((db, id)) => Ok((db@, id@)),
        Err(m) => Err(m@),
    }
}

/// Removing the bindings of a profile keeps the others in key order, each
/// profile once, and adds none.
pub proof fn unbound_keeps_order(bs: Seq<BindingView>, id: Seq<char>)
    ensures
        forall|i: int| 0 <= i < unbound(bs, id).len() ==> bs.contains(#[trigger] unbound(bs, id)[i]),
        bindings_ordered(bs) ==> bindings_ordered(unbound(bs, id)),
    decreases bs.len(),
{
    if bs.len() > 0 {
        let d = bs.drop_last();
        unbound_keeps_order(d, id);
        let u = unbound(d, id);
        assert forall|i: int| 0 <= i < u.len() implies bs.contains(#[trigger] u[i]) by {
            assert(d.contains(u[i]));
            let k = choose|k: int| 0 <= k < d.len() && d[k] == u[i];
            assert(bs[k] == u[i]);
        }
        if bindings_ordered(bs) {
            assert(bindings_ordered(d)) by {
                assert forall|i: int, j: int|
                    #![trigger d[i], d[j]]
                    0 <= i < j < d.len() implies text_less(d[i].profile, d[j].profile)
                        && d[i].profile != d[j].profile by {
                    assert(d[i] == bs[i] && d[j] == bs[j]);
                }
            }
            if bs.last().profile != id {
                let w = u.push(bs.last());
                assert forall|i: int, j: int|
                    #![trigger w[i], w[j]]
                    0 <= i < j < w.len() implies text_less(w[i].profile, w[j].profile)
                        && w[i].profile != w[j].profile by {
                    if j == u.len() {
                        assert(d.contains(u[i]));
                        let k = choose|k: int| 0 <= k < d.len() && d[k] == u[i];
                        assert(bs[k] == w[i]);
                        assert(bs[bs.len() - 1] == w[j]);
                    } else {
                        assert(w[i] == u[i] && w[j] == u[j]);
                    }
                }
                assert(unbound(bs, id) == w);
            }
        }
    }
}

fn bindings_without(bs: &Vec<Binding>, id: &String) -> (r: Vec<Binding>)
    ensures
        binding_views(r@) == unbound(binding_views(bs@), id@),
        bindings_ordered(binding_views(bs@)) ==> bindings_ordered(binding_views(r@)),
{
    proof {
        unbound_keeps_order(binding_views(bs@), id@);
    }
    let mut out: Vec<Binding> = Vec::new();
    let mut i: usize = 0;
    while i < bs.len()
        invariant
            i <= bs.len(),
            binding_views(out@) == unbound(binding_views(bs@).take(i as int), id@),
        decreases bs.len() - i,
    {
        let ghost before = binding_views(bs@).take(i as int);
        assert(binding_views(bs@).take(i + 1).drop_last() =~= before);
        if bs[i].profile != *id {
            out.push(Binding { profile: bs[i].profile.clone(), keys: bs[i].keys.clone() });
            assert(binding_views(out@) =~= unbound(before, id@).push(binding_views(bs@)[i as int]));
        }
        i += 1;
    }
    assert(binding_views(bs@).take(bs.len() as int) =~= binding_views(bs@));
    out
}

fn copy_name_of(name: &String) -> (r: String)
    ensures
        r@ == copy_name(name@),
{
    let v = chars_of(name.as_str());
    let n: usize = if v.len() > 70 {
        70
    } else {
        v.len()
    };
    let mut w = slice_of(&v, 0, n);
    w.push(' ');
    w.push('c');
    w.push('o');
    w.push('p');
    w.push('y');
    proof {
        reveal_strlit(" copy");
    }
    assert(w@ =~= copy_name(name@));
    string_of(w.as_slice())
}

/// The profile actions of the control center: `create`, `duplicate`,
/// `delete`, `up` and `down`. The database returned is stored without
/// touching APO.
pub fn profile_action(db: &Database, action: &String, id: &Option<String>) -> (r: Result<(Database, String), String>)
    requires
        action@ == "create"@ ==> db.profiles.len() > 0,
    ensures
        action_of(db@, action@, opt_text(*id), named_result(r)),
{
    let index = match id {
        Some(x) => locate(&db.profiles, x),
        None => None,
    };
    let create = is_text(action, "create");
    let duplicate = is_text(action, "duplicate");
    if create || duplicate {
        let mut p = if duplicate {
            let i = match index {
                Some(i) => i,
                None => return Err(text("Select a profile")),
            };
            let q = &db.profiles[i];
            proof {
                assert(profile_views(db.profiles@)[i as int] == q@);
            }
            let name = copy_name_of(&q.name);
            let mut provenance = text("Copy of ");
            provenance.append(name.as_str());
            let mut c = q.copied();
            c.name = name;
            c.provenance = provenance;
            c
        } else {
            Profile {
                schema_version: 1,
                id: String::new(),
                name: text("New profile"),
                icon: text("headphones"),
                headphone_id: db.selected_headphone.clone(),
                preamp: Decimal::zero(),
                filters: Vec::new(),
                graphic_eq: Vec::new(),
                provenance: text("Created in Ananda Control"),
            }
        };
        let nid = new_id();
        p.id = nid.clone();
        let ghost pv = p@;
        let mut next = db.copied();
        let at = next.profiles.len() - 1;
        next.profiles.insert(at, p);
        proof {
            assert(profile_views(next.profiles@) =~= db@.profiles.insert(at as int, pv));
            if !duplicate {
                assert(pv.filters =~= Seq::<FilterView>::empty());
                assert(pv.graphic_eq =~= Seq::<PointView>::empty());
            }
        }
        return Ok((next, nid));
    }
    if is_text(action, "delete") {
        let i = match index {
            Some(i) => i,
            None => return Err(text("Missing profile")),
        };
        let p = &db.profiles[i];
        proof {
            assert(profile_views(db.profiles@)[i as int] == p@);
        }
        if is_stock(&p.id) || p.id == db.active_profile || p.id == db.last_enabled {
            return Err(text("Switch to another enabled profile before deleting this profile. Stock cannot be deleted."));
        }
        let pid = p.id.clone();
        let mut next = db.copied();
        next.settings.shortcuts = bindings_without(&db.settings.shortcuts, &pid);
        next.profiles.remove(i);
        proof {
            assert(profile_views(next.profiles@) =~= db@.profiles.remove(i as int));
        }
        return Ok((next, pid));
    }
    let up = is_text(action, "up");
    if up || is_text(action, "down") {
        let i = match index {
            Some(i) => i,
            None => return Err(text("Missing profile")),
        };
        let mut next = db.copied();
        let ok = if up {
            i > 0
        } else {
            i + 1 < db.profiles.len()
        };
        if ok {
            let other = if up {
                i - 1
            } else {
                i + 1
            };
            let a = db.profiles[i].copied();
            let b = db.profiles[other].copied();
            next.profiles.set(i, b);
            next.profiles.set(other, a);
            proof {
                assert(profile_views(next.profiles@) =~= db@.profiles.update(
                    i as int,
                    db@.profiles[other as int],
                ).update(other as int, db@.profiles[i as int]));
            }
        }
        let name = match id {
            Some(x) => x.clone(),
            None => String::new(),
        };
        return Ok((next, name));
    }
    Err(text("Unknown profile action"))
}

// ---------------------------------------------------------------------------
// Headphones
// ---------------------------------------------------------------------------
pub open spec fn headphone_name_ok(n: Seq<char>) -> bool {
    trim(n).len() > 0 && n.len() <= 80
}

pub open spec fn msg_headphone_name() -> Seq<char> {
    "Enter a headphone name (1–80 characters)"@
}

pub open spec fn msg_missing_headphone() -> Seq<char> {
    "Missing headphone"@
}

pub open spec fn msg_headphone_in_use() -> Seq<char> {
    "Move this headphone's profiles and select another headphone before deleting it"@
}

pub open spec fn msg_unknown_headphone_action() -> Seq<char> {
    "Unknown headphone action"@
}

pub open spec fn is_first_headphone(hs: Seq<HeadphoneView>, id: Seq<char>, i: int) -> bool {
    &&& 0 <= i < hs.len()
    &&& hs[i].id == id
    &&& forall|j: int| 0 <= j < i ==> (#[trigger] hs[j]).id != id
}

pub open spec fn first_headphone(hs: Seq<HeadphoneView>, id: Seq<char>) -> int {
    choose|i: int| is_first_headphone(hs, id, i)
}

/// Headphones other than `id`, in order.
pub open spec fn kept(hs: Seq<HeadphoneView>, id: Seq<char>) -> Seq<HeadphoneView>
    decreases hs.len(),
{
    if hs.len() == 0 {
        Seq::empty()
    } else if hs.last().id == id {
        kept(hs.drop_last(), id)
    } else {
        kept(hs.drop_last(), id).push(hs.last())
    }
}

pub open spec fn headphone_used(ps: Seq<ProfileView>, id: Seq<char>) -> bool {
    exists|i: int| 0 <= i < ps.len() && (#[trigger] ps[i]).headphone_id == id
}

/// How a headphone action ends. A created headphone gets a fresh random ID.
pub open spec fn headphone_of(
    db: DatabaseView,
    action: Seq<char>,
    id: Seq<char>,
    name: Seq<char>,
    r: Result<DatabaseView, Seq<char>>,
) -> bool {
    if action == "create"@ {
        if !headphone_name_ok(name) {
            r == Err::<DatabaseView, Seq<char>>(msg_headphone_name())
        } else {
            r matches Ok(n) && n.headphones.len() == db.headphones.len() + 1 && is_uuid_text(
                n.headphones.last().id,
            ) && n == DatabaseView {
                headphones: db.headphones.push(
                    HeadphoneView { id: n.headphones.last().id, name },
                ),
                ..db
            }
        }
    } else if action == "rename"@ {
        if !headphone_name_ok(name) {
            r == Err::<DatabaseView, Seq<char>>(msg_headphone_name())
        } else if !has_headphone(db.headphones, id) {
            r == Err::<DatabaseView, Seq<char>>(msg_missing_headphone())
        } else {
            r == Ok::<DatabaseView, Seq<char>>(
                DatabaseView {
                    headphones: db.headphones.update(
                        first_headphone(db.headphones, id),
                        HeadphoneView { id, name },
                    ),
                    ..db
                },
            )
        }
    } else if action == "select"@ {
        if !has_headphone(db.headphones, id) {
            r == Err::<DatabaseView, Seq<char>>(msg_missing_headphone())
        } else {
            r == Ok::<DatabaseView, Seq<char>>(DatabaseView { selected_headphone: id, ..db })
        }
    } else if action == "delete"@ {
        if db.selected_headphone == id || headphone_used(db.profiles, id) {
            r == Err::<DatabaseView, Seq<char>>(msg_headphone_in_use())
        } else {
            r == Ok::<DatabaseView, Seq<char>>(
                DatabaseView { headphones: kept(db.headphones, id), ..db },
            )
        }
    } else {
        r == Err::<DatabaseView, Seq<char>>(msg_unknown_headphone_action())
    }
}

fn headphone_name_valid(name: &String) -> (r: bool)
    ensures
        r == headphone_name_ok(name@),
{
    let v = chars_of(name.as_str());
    let t = trimmed(&v, 0, v.len());
    assert(v@.subrange(0, v@.len() as int) =~= v@);
    t.len() > 0 && v.len() <= 80
}

fn find_headphone(hs: &Vec<Headphone>, id: &String) -> (r: Option<usize>)
    ensures
        r is Some == has_headphone(headphone_views(hs@), id@),
        r matches Some(i) ==> i < hs.len() && i == first_headphone(headphone_views(hs@), id@)
            && hs@[i as int].id@ == id@,
{
    let mut i: usize = 0;
    while i < hs.len()
        invariant
            i <= hs.len(),
            forall|j: int| 0 <= j < i ==> (#[trigger] hs@[j]).id@ != id@,
        decreases hs.len() - i,
    {
        if hs[i].id == *id {
            proof {
                let vs = headphone_views(hs@);
                assert(vs[i as int].id == id@);
                assert forall|j: int| 0 <= j < i implies (#[trigger] vs[j]).id != id@ by {
                    assert(vs[j] == hs@[j]@);
                }
                let k = first_headphone(vs, id@);
                assert(is_first_headphone(vs, id@, i as int));
                assert(is_first_headphone(vs, id@, k));
                if k < i {
                    assert(vs[k].id != id@);
                } else if (i as int) < k {
                    assert(vs[i as int].id != id@);
                }
            }
            return Some(i);
        }
        i += 1;
    }
    assert(!has_headphone(headphone_views(hs@), id@)) by {
        if has_headphone(headphone_views(hs@), id@) {
            let k = choose|k: int| 0 <= k < hs.len() && (#[trigger] headphone_views(hs@)[k]).id == id@;
            assert(hs@[k].id@ == id@);
        }
    }
    None
}

fn headphone_in_use(ps: &Vec<Profile>, id: &String) -> (r: bool)
    ensures
        r == headphone_used(profile_views(ps@), id@),
{
    let mut i: usize = 0;
    while i < ps.len()
        invariant
            i <= ps.len(),
            forall|j: int| 0 <= j < i ==> (#[trigger] ps@[j]).headphone_id@ != id@,
        decreases ps.len() - i,
    {
        if ps[i].headphone_id == *id {
            assert(profile_views(ps@)[i as int].headphone_id == id@);
            return true;
        }
        i += 1;
    }
    assert(!headphone_used(profile_views(ps@), id@)) by {
        if headphone_used(profile_views(ps@), id@) {
            let k = choose|k: int| 0 <= k < ps.len() && (#[trigger] profile_views(ps@)[k]).headphone_id == id@;
            assert(ps@[k].headphone_id@ == id@);
        }
    }
    false
}

fn headphones_without(hs: &Vec<Headphone>, id: &String) -> (r: Vec<Headphone>)
    ensures
        headphone_views(r@) == kept(headphone_views(hs@), id@),
{
    let mut out: Vec<Headphone> = Vec::new();
    let mut i: usize = 0;
    while i < hs.len()
        invariant
            i <= hs.len(),
            headphone_views(out@) == kept(headphone_views(hs@).take(i as int), id@),
        decreases hs.len() - i,
    {
        let ghost before = headphone_views(hs@).take(i as int);
        assert(headphone_views(hs@).take(i + 1).drop_last() =~= before);
        if hs[i].id != *id {
            out.push(hs[i].copied());
            assert(headphone_views(out@) =~= kept(before, id@).push(headphone_views(hs@)[i as int]));
        }
        i += 1;
    }
    assert(headphone_views(hs@).take(hs.len() as int) =~= headphone_views(hs@));
    out
}

/// The headphone actions of the control center: `create`, `rename`,
/// `select` and `delete`. The database returned is stored without touching
/// APO.
pub fn headphone_action(db: &Database, action: &String, id: &String, name: &String) -> (r: Result<Database, String>)
    ensures
        headphone_of(db@, action@, id@, name@, db_result(r)),
{
    if is_text(action, "create") {
        if !headphone_name_valid(name) {
            return Err(text("Enter a headphone name (1–80 characters)"));
        }
        let mut next = db.copied();
        let h = Headphone { id: new_id(), name: name.clone() };
        let ghost hv = h@;
        next.headphones.push(h);
        assert(headphone_views(next.headphones@) =~= db@.headphones.push(hv));
        return Ok(next);
    }
    if is_text(action, "rename") {
        if !headphone_name_valid(name) {
            return Err(text("Enter a headphone name (1–80 characters)"));
        }
        let i = match find_headphone(&db.headphones, id) {
            Some(i) => i,
            None => return Err(text("Missing headphone")),
        };
        let mut next = db.copied();
        let h = Headphone { id: db.headphones[i].id.clone(), name: name.clone() };
        assert(headphone_views(db.headphones@)[i as int] == db.headphones@[i as int]@);
        next.headphones.set(i, h);
        assert(headphone_views(next.headphones@) =~= db@.headphones.update(
            i as int,
            HeadphoneView { id: id@, name: name@ },
        ));
        return Ok(next);
    }
    if is_text(action, "select") {
        if !headphone_exists(&db.headphones, id) {
            return Err(text("Missing headphone"));
        }
        let mut next = db.copied();
        next.selected_headphone = id.clone();
        return Ok(next);
    }
    if is_text(action, "delete") {
        if db.selected_headphone == *id || headphone_in_use(&db.profiles, id) {
            return Err(text("Move this headphone's profiles and select another headphone before deleting it"));
        }
        let mut next = db.copied();
        next.headphones = headphones_without(&db.headphones, id);
        return Ok(next);
    }
    Err(text("Unknown headphone action"))
}

// ---------------------------------------------------------------------------
// Importing
// ---------------------------------------------------------------------------
/// An imported profile before it gets its ID: its new name (if given), the
/// provenance, and the selected headphone.
pub open spec fn candidate(
    db: DatabaseView,
    p: ProfileView,
    name: Option<Seq<char>>,
    provenance: Seq<char>,
    id: Seq<char>,
) -> ProfileView {
    ProfileView {
        id,
        name: match name {
            Some(n) => n,
            None => p.name,
        },
        provenance,
        headphone_id: db.selected_headphone,
        ..p
    }
}

/// How an import ends: the validation message of the imported profile, or
/// the database with it placed before Stock under a fresh random ID.
pub open spec fn import_of(
    db: DatabaseView,
    p: ProfileView,
    name: Option<Seq<char>>,
    provenance: Seq<char>,
    r: Result<(DatabaseView, Seq<char>), Seq<char>>,
) -> bool {
    match profile_error(candidate(db, p, name, provenance, Seq::empty())) {
        Some(m) => r == Err::<(DatabaseView, Seq<char>), Seq<char>>(m),
        None => r matches Ok((n, nid)) && is_uuid_text(nid) && n == inserted(
            db,
            candidate(db, p, name, provenance, nid),
        ),
    }
}

/// Adds an imported profile (read from APO text or profile JSON), optionally
/// renamed, with the given provenance.
pub fn import_profile(db: &Database, p: Profile, name: Option<String>, provenance: String) -> (r: Result<(Database, String), String>)
    requires
        db.profiles.len() > 0,
    ensures
        import_of(db@, p@, opt_text(name), provenance@, named_result(r)),
{
    let mut p = p;
    let ghost pv = p@;
    let nid = new_id();
    p.id = nid.clone();
    match name {
        Some(n) => p.name = n,
        None => {},
    }
    p.provenance = provenance;
    p.headphone_id = db.selected_headphone.clone();
    proof {
        assert(nid@.len() == 36);
        assert(nid@ != stock_id());
        assert(stock_id().len() == 5);
        assert(Seq::<char>::empty() != stock_id());
        assert(p@ == candidate(db@, pv, opt_text(name), provenance@, nid@));
    }
    match validate_profile(&p) {
        Err(m) => return Err(m),
        Ok(()) => {},
    }
    let ghost qv = p@;
    let mut next = db.copied();
    let at = next.profiles.len() - 1;
    next.profiles.insert(at, p);
    proof {
        assert(profile_views(next.profiles@) =~= db@.profiles.insert(at as int, qv));
    }
    Ok((next, nid))
}

// ---------------------------------------------------------------------------
// Integration
// ---------------------------------------------------------------------------
pub open spec fn msg_needs_verification() -> Seq<char> {
    "Complete integration and resolve configuration conflicts first"@
}

/// Records whether the user confirmed audible processing; confirming needs
/// owned APO files.
pub fn audio_marked(db: &Database, verified: bool, owned: bool) -> (r: Result<Database, String>)
    ensures
        verified && !owned ==> db_result(r) == Err::<DatabaseView, Seq<char>>(msg_needs_verification()),
        !(verified && !owned) ==> db_result(r) == Ok::<DatabaseView, Seq<char>>(
            DatabaseView {
                integration: IntegrationView { audio_verified: verified, ..db@.integration },
                ..db@
            },
        ),
{
    if verified && !owned {
        return Err(text("Complete integration and resolve configuration conflicts first"));
    }
    let mut next = db.copied();
    next.integration.audio_verified = verified;
    Ok(next)
}

pub open spec fn msg_restore_changed() -> Seq<char> {
    "Configuration changed externally. Back up and repair it before restoring the original configuration."@
}

pub open spec fn msg_no_backup() -> Seq<char> {
    "No backup available"@
}

/// The database after giving the original APO configuration back:
/// integration off, audio not verified, no start with Windows.
pub open spec fn restored(db: DatabaseView) -> DatabaseView {
    DatabaseView {
        integration: IntegrationView { installed: false, audio_verified: false, ..db.integration },
        settings: SettingsView { start_with_windows: false, ..db.settings },
        ..db
    }
}

/// Restoring needs owned APO files and a backup; it gives the database to
/// store and the backup folder to restore from.
pub fn restoration(db: &Database, owned: bool) -> (r: Result<(Database, String), String>)
    ensures
        !owned ==> named_result(r) == Err::<(DatabaseView, Seq<char>), Seq<char>>(msg_restore_changed()),
        owned && db@.integration.backup_dir is None ==> named_result(r) == Err::<
            (DatabaseView, Seq<char>),
            Seq<char>,
        >(msg_no_backup()),
        owned && db@.integration.backup_dir is Some ==> named_result(r) == Ok::<
            (DatabaseView, Seq<char>),
            Seq<char>,
        >((restored(db@), db@.integration.backup_dir->0)),
{
    if !owned {
        return Err(text("Configuration changed externally. Back up and repair it before restoring the original configuration."));
    }
    let backup = match &db.integration.backup_dir {
        Some(b) => b.clone(),
        None => return Err(text("No backup available")),
    };
    let mut next = db.copied();
    next.integration.installed = false;
    next.integration.audio_verified = false;
    next.settings.start_with_windows = false;
    Ok((next, backup))
}

pub open spec fn msg_install_apo() -> Seq<char> {
    "Install Equalizer APO and configure the output device first"@
}

pub open spec fn msg_endpoint_gone() -> Seq<char> {
    "Output endpoint no longer exists"@
}

pub open spec fn msg_not_registered() -> Seq<char> {
    "Equalizer APO is not registered on this endpoint. Use Device Selector from Diagnostics, then retry."@
}

pub open spec fn msg_already_installed() -> Seq<char> {
    "Integration is already installed"@
}

/// Whether setup may go ahead: the APO root configuration exists, the chosen
/// endpoint exists (`registered` is `None` when it does not) with APO
/// registered on it, and integration is not installed yet unless this is a
/// repair.
pub open spec fn setup_check(config_exists: bool, registered: Option<bool>, repair: bool, installed: bool) -> Result<(), Seq<char>> {
    if !config_exists {
        Err(msg_install_apo())
    } else if registered is None {
        Err(msg_endpoint_gone())
    } else if !(registered->0) {
        Err(msg_not_registered())
    } else if !repair && installed {
        Err(msg_already_installed())
    } else {
        Ok(())
    }
}

pub fn setup_allowed(config_exists: bool, registered: Option<bool>, repair: bool, installed: bool) -> (r: Result<(), String>)
    ensures
        result_view(r) == setup_check(config_exists, registered, repair, installed),
{
    if !config_exists {
        return Err(text("Install Equalizer APO and configure the output device first"));
    }
    match registered {
        None => return Err(text("Output endpoint no longer exists")),
        Some(false) => return Err(text("Equalizer APO is not registered on this endpoint. Use Device Selector from Diagnostics, then retry.")),
        Some(true) => {},
    }
    if !repair && installed {
        return Err(text("Integration is already installed"));
    }
    Ok(())
}

/// The root APO configuration that hands control to the active file.
pub open spec fn owned_root() -> Seq<char> {
    "# Ananda Control owns this configuration. Restore through Diagnostics.\nInclude: ananda-control/active.txt\n"@
}

pub fn root_text() -> (r: String)
    ensures
        r@ == owned_root(),
{
    text("# Ananda Control owns this configuration. Restore through Diagnostics.\nInclude: ananda-control/active.txt\n")
}

/// The database with integration installed for an endpoint, before the
/// active APO text is generated. A repair keeps an existing backup folder.
pub open spec fn integrated(
    db: DatabaseView,
    config_dir: Seq<char>,
    device_id: Seq<char>,
    backup: Seq<char>,
    repair: bool,
) -> DatabaseView {
    DatabaseView {
        integration: IntegrationView {
            installed: true,
            config_dir,
            device_id,
            expected_root: owned_root(),
            audio_verified: false,
            backup_dir: if !repair || db.integration.backup_dir is None {
                Some(backup)
            } else {
                db.integration.backup_dir
            },
            ..db.integration
        },
        ..db
    }
}

/// The database to store once setup has written the owned APO files.
pub fn integration_next(db: &Database, config_dir: &str, device_id: &String, backup: &str, repair: bool) -> (r: Result<Database, String>)
    ensures
        regenerated(integrated(db@, config_dir@, device_id@, backup@, repair), db_result(r)),
{
    let mut next = db.copied();
    next.integration.installed = true;
    next.integration.config_dir = text(config_dir);
    next.integration.device_id = device_id.clone();
    next.integration.expected_root = root_text();
    next.integration.audio_verified = false;
    if !repair || next.integration.backup_dir.is_none() {
        next.integration.backup_dir = Some(text(backup));
    }
    regenerate(next)
}

pub open spec fn msg_setup_failed(e: Seq<char>, rolled_back: bool, backup: Seq<char>) -> Seq<char> {
    "Setup failed: "@ + e + ". Config rollback: "@ + (if rolled_back {
        "complete"@
    } else {
        "needs manual restoration"@
    }) + ". Backup: "@ + backup
}

/// The message for a setup that failed after the APO files were touched.
pub fn setup_failed(e: &str, rolled_back: bool, backup: &str) -> (r: String)
    ensures
        r@ == msg_setup_failed(e@, rolled_back, backup@),
{
    let mut m = text("Setup failed: ");
    m.append(e);
    m.append(". Config rollback: ");
    if rolled_back {
        m.append("complete");
    } else {
        m.append("needs manual restoration");
    }
    m.append(". Backup: ");
    m.append(backup);
    m
}

// ---------------------------------------------------------------------------
// The setup transaction
// ---------------------------------------------------------------------------
/// Where a setup stands once the backup is written: handing APO over from
/// Peace, writing the owned APO files and the database, or undoing them.
#[derive(Clone, Copy, Debug, PartialEq, Eq, Structural)]
pub enum SetupStage {
    /// Waiting for the handover from Peace.
    Handover,
    /// Waiting for Peace's startup to be restored after a failed handover.
    HandoverUndo,
    /// Waiting for the active APO file to be written.
    Active,
    /// Waiting for the root `config.txt` to be written.
    Root,
    /// Waiting for the database to be stored.
    Save,
    /// Waiting for the original `config.txt` to be written back.
    Config,
    /// Waiting for the previous active APO file to be written back.
    Previous,
    /// Waiting for Peace's startup to be restored after a failed write.
    Peace,
    /// Finished.
    Over,
}

/// What the application does next for a setup.
pub enum SetupStep {
    HandOver,
    RestorePeace,
    WriteActive,
    WriteRoot,
    SaveDatabase,
    RestoreConfig,
    RestoreActive,
    Finish(Result<(), String>),
}

pub enum SetupStepView {
    HandOver,
    RestorePeace,
    WriteActive,
    WriteRoot,
    SaveDatabase,
    RestoreConfig,
    RestoreActive,
    Finish(Result<(), Seq<char>>),
}

impl View for SetupStep {
    type V = SetupStepView;

    open spec fn view(&self) -> SetupStepView {
        match self {
            SetupStep::HandOver => SetupStepView::HandOver,
            SetupStep::RestorePeace => SetupStepView::RestorePeace,
            SetupStep::WriteActive => SetupStepView::WriteActive,
            SetupStep::WriteRoot => SetupStepView::WriteRoot,
            SetupStep::SaveDatabase => SetupStepView::SaveDatabase,
            SetupStep::RestoreConfig => SetupStepView::RestoreConfig,
            SetupStep::RestoreActive => SetupStepView::RestoreActive,
            SetupStep::Finish(r) => SetupStepView::Finish(result_view(*r)),
        }
    }
}

/// A setup in progress: its stage, the first failure, whether the original
/// `config.txt` was written back, whether there was an active APO file to
/// put back, and the backup folder.
pub struct Setup {
    stage: SetupStage,
    error: String,
    rolled_back: bool,
    has_previous: bool,
    backup: String,
}

pub struct SetupView {
    pub stage: SetupStage,
    pub error: Seq<char>,
    pub rolled_back: bool,
    pub has_previous: bool,
    pub backup: Seq<char>,
}

impl View for Setup {
    type V = SetupView;

    closed spec fn view(&self) -> SetupView {
        SetupView {
            stage: self.stage,
            error: self.error@,
            rolled_back: self.rolled_back,
            has_previous: self.has_previous,
            backup: self.backup@,
        }
    }
}

pub open spec fn msg_handover(e: Seq<char>) -> Seq<char> {
    "Peace handover failed; startup restoration attempted: "@ + e
}

/// The first undo step after a failed write: `config.txt` is written back.
pub open spec fn undo(s: SetupView, e: Seq<char>) -> (SetupView, SetupStepView) {
    (SetupView { stage: SetupStage::Config, error: e, ..s }, SetupStepView::RestoreConfig)
}

/// The next stage and step of a setup, given how the last step went. The
/// owned files and the database are written in turn; the first failure
/// writes the original `config.txt` back, then the previous active file if
/// there was one, then restores Peace's startup, and reports the failure
/// with whether `config.txt` was restored. A failed handover only restores
/// Peace's startup.
pub open spec fn setup_after(s: SetupView, r: Result<(), Seq<char>>) -> (SetupView, SetupStepView) {
    match s.stage {
        SetupStage::Handover => match r {
            Err(e) => (
                SetupView { stage: SetupStage::HandoverUndo, error: e, ..s },
                SetupStepView::RestorePeace,
            ),
            Ok(_) => (SetupView { stage: SetupStage::Active, ..s }, SetupStepView::WriteActive),
        },
        SetupStage::HandoverUndo => (
            SetupView { stage: SetupStage::Over, ..s },
            SetupStepView::Finish(Err(msg_handover(s.error))),
        ),
        SetupStage::Active => match r {
            Err(e) => undo(s, e),
            Ok(_) => (SetupView { stage: SetupStage::Root, ..s }, SetupStepView::WriteRoot),
        },
        SetupStage::Root => match r {
            Err(e) => undo(s, e),
            Ok(_) => (SetupView { stage: SetupStage::Save, ..s }, SetupStepView::SaveDatabase),
        },
        SetupStage::Save => match r {
            Err(e) => undo(s, e),
            Ok(_) => (SetupView { stage: SetupStage::Over, ..s }, SetupStepView::Finish(Ok(()))),
        },
        SetupStage::Config => if s.has_previous {
            (
                SetupView { stage: SetupStage::Previous, rolled_back: r is Ok, ..s },
                SetupStepView::RestoreActive,
            )
        } else {
            (
                SetupView { stage: SetupStage::Peace, rolled_back: r is Ok, ..s },
                SetupStepView::RestorePeace,
            )
        },
        SetupStage::Previous => (SetupView { stage: SetupStage::Peace, ..s }, SetupStepView::RestorePeace),
        SetupStage::Peace => (
            SetupView { stage: SetupStage::Over, ..s },
            SetupStepView::Finish(Err(msg_setup_failed(s.error, s.rolled_back, s.backup))),
        ),
        SetupStage::Over => (s, SetupStepView::Finish(Ok(()))),
    }
}

impl Setup {
    /// Starts a setup whose backup is in `backup`: the first step is the
    /// handover from Peace.
    pub fn begin(has_previous: bool, backup: String) -> (r: (Setup, SetupStep))
        ensures
            r.0@ == (SetupView {
                stage: SetupStage::Handover,
                error: Seq::empty(),
                rolled_back: false,
                has_previous,
                backup: backup@,
            }),
            r.1@ == SetupStepView::HandOver,
    {
        (
            Setup { stage: SetupStage::Handover, error: String::new(), rolled_back: false, has_previous, backup },
            SetupStep::HandOver,
        )
    }

    /// Takes the outcome of the last step and gives the next one.
    pub fn reported(&mut self, r: Result<(), String>) -> (step: SetupStep)
        requires
            old(self)@.stage != SetupStage::Over,
        ensures
            (final(self)@, step@) == setup_after(old(self)@, result_view(r)),
    {
        match self.stage {
            SetupStage::Handover => match r {
                Err(e) => {
                    self.stage = SetupStage::HandoverUndo;
                    self.error = e;
                    SetupStep::RestorePeace
                },
                Ok(()) => {
                    self.stage = SetupStage::Active;
                    SetupStep::WriteActive
                },
            },
            SetupStage::HandoverUndo => {
                self.stage = SetupStage::Over;
                let mut m = text("Peace handover failed; startup restoration attempted: ");
                m.append(self.error.as_str());
                SetupStep::Finish(Err(m))
            },
            SetupStage::Active | SetupStage::Root | SetupStage::Save => match r {
                Err(e) => {
                    self.stage = SetupStage::Config;
                    self.error = e;
                    SetupStep::RestoreConfig
                },
                Ok(()) => {
                    if self.stage == SetupStage::Active {
                        self.stage = SetupStage::Root;
                        SetupStep::WriteRoot
                    } else if self.stage == SetupStage::Root {
                        self.stage = SetupStage::Save;
                        SetupStep::SaveDatabase
                    } else {
                        self.stage = SetupStage::Over;
                        SetupStep::Finish(Ok(()))
                    }
                },
            },
            SetupStage::Config => {
                self.rolled_back = r.is_ok();
                if self.has_previous {
                    self.stage = SetupStage::Previous;
                    SetupStep::RestoreActive
                } else {
                    self.stage = SetupStage::Peace;
                    SetupStep::RestorePeace
                }
            },
            SetupStage::Previous => {
                self.stage = SetupStage::Peace;
                SetupStep::RestorePeace
            },
            SetupStage::Peace | SetupStage::Over => {
                self.stage = SetupStage::Over;
                SetupStep::Finish(Err(setup_failed(self.error.as_str(), self.rolled_back, self.backup.as_str())))
            },
        }
    }
}

/// A setup reports success only after the handover, both APO files and the
/// database were written, each without error.
pub proof fn setup_succeeds_after_every_write(s: SetupView, r: Result<(), Seq<char>>)
    requires
        s.stage != SetupStage::Over,
        setup_after(s, r).1 == SetupStepView::Finish(Ok(())),
    ensures
        s.stage == SetupStage::Save,
        r is Ok,
{
}

/// A write that fails once Peace handed APO over is undone whatever the
/// undo steps report: the original `config.txt` is written back, then the
/// previous active file if there was one, then Peace's startup is restored,
/// and the failure is reported with whether `config.txt` was restored.
pub proof fn failed_setup_rolls_back(
    s: SetupView,
    e: Seq<char>,
    r1: Result<(), Seq<char>>,
    r2: Result<(), Seq<char>>,
    r3: Result<(), Seq<char>>,
)
    requires
        s.stage == SetupStage::Active || s.stage == SetupStage::Root || s.stage == SetupStage::Save,
    ensures
        ({
            let (s1, a1) = setup_after(s, Err(e));
            let (s2, a2) = setup_after(s1, r1);
            let (s3, a3) = setup_after(s2, r2);
            let (s4, a4) = setup_after(s3, r3);
            let failed = SetupStepView::Finish(Err(msg_setup_failed(e, r1 is Ok, s.backup)));
            &&& a1 == SetupStepView::RestoreConfig
            &&& s.has_previous ==> a2 == SetupStepView::RestoreActive && a3 == SetupStepView::RestorePeace
                && a4 == failed && s4.stage == SetupStage::Over
            &&& !s.has_previous ==> a2 == SetupStepView::RestorePeace && a3 == failed && s3.stage
                == SetupStage::Over
        }),
{
}

// ---------------------------------------------------------------------------
// Restoring the original configuration
// ---------------------------------------------------------------------------
#[derive(Clone, Copy, Debug, PartialEq, Eq, Structural)]
pub enum RestoreStage {
    /// Waiting for the original `config.txt` to be written back.
    Config,
    /// Waiting for the database to be stored.
    Save,
    /// Waiting for the owned root `config.txt` to be written again after the
    /// database could not be stored.
    Undo,
    /// Waiting for Peace's startup to be restored.
    Peace,
    /// Waiting for Windows startup to be switched off.
    Autostart,
    /// Finished.
    Over,
}

/// What the application does next to restore the original configuration.
pub enum RestoreStep {
    WriteConfig,
    SaveDatabase,
    RewriteRoot,
    RestorePeace,
    DisableAutostart,
    Finish(Result<(), String>),
}

pub enum RestoreStepView {
    WriteConfig,
    SaveDatabase,
    RewriteRoot,
    RestorePeace,
    DisableAutostart,
    Finish(Result<(), Seq<char>>),
}

impl View for RestoreStep {
    type V = RestoreStepView;

    open spec fn view(&self) -> RestoreStepView {
        match self {
            RestoreStep::WriteConfig => RestoreStepView::WriteConfig,
            RestoreStep::SaveDatabase => RestoreStepView::SaveDatabase,
            RestoreStep::RewriteRoot => RestoreStepView::RewriteRoot,
            RestoreStep::RestorePeace => RestoreStepView::RestorePeace,
            RestoreStep::DisableAutostart => RestoreStepView::DisableAutostart,
            RestoreStep::Finish(r) => RestoreStepView::Finish(result_view(*r)),
        }
    }
}

/// A restoration in progress: its stage and the failure to report.
pub struct Restore {
    stage: RestoreStage,
    error: String,
}

pub struct RestoreView {
    pub stage: RestoreStage,
    pub error: Seq<char>,
}

impl View for Restore {
    type V = RestoreView;

    closed spec fn view(&self) -> RestoreView {
        RestoreView { stage: self.stage, error: self.error@ }
    }
}

/// The next stage and step of a restoration: the original `config.txt` is
/// written, then the database stored, then Peace's startup restored and
/// Windows startup switched off. A failed write or restoration is reported
/// as it is; a database that could not be stored first has the owned root
/// `config.txt` written again, whatever that gives.
pub open spec fn restore_after(s: RestoreView, r: Result<(), Seq<char>>) -> (RestoreView, RestoreStepView) {
    match s.stage {
        RestoreStage::Config => match r {
            Err(e) => (RestoreView { stage: RestoreStage::Over, error: e }, RestoreStepView::Finish(Err(e))),
            Ok(_) => (RestoreView { stage: RestoreStage::Save, ..s }, RestoreStepView::SaveDatabase),
        },
        RestoreStage::Save => match r {
            Err(e) => (RestoreView { stage: RestoreStage::Undo, error: e }, RestoreStepView::RewriteRoot),
            Ok(_) => (RestoreView { stage: RestoreStage::Peace, ..s }, RestoreStepView::RestorePeace),
        },
        RestoreStage::Undo => (
            RestoreView { stage: RestoreStage::Over, ..s },
            RestoreStepView::Finish(Err(s.error)),
        ),
        RestoreStage::Peace => match r {
            Err(e) => (RestoreView { stage: RestoreStage::Over, error: e }, RestoreStepView::Finish(Err(e))),
            Ok(_) => (
                RestoreView { stage: RestoreStage::Autostart, ..s },
                RestoreStepView::DisableAutostart,
            ),
        },
        RestoreStage::Autostart => (
            RestoreView { stage: RestoreStage::Over, ..s },
            RestoreStepView::Finish(Ok(())),
        ),
        RestoreStage::Over => (s, RestoreStepView::Finish(Ok(()))),
    }
}

impl Restore {
    /// Starts a restoration: the first step writes the original
    /// `config.txt` back.
    pub fn begin() -> (r: (Restore, RestoreStep))
        ensures
            r.0@ == (RestoreView { stage: RestoreStage::Config, error: Seq::empty() }),
            r.1@ == RestoreStepView::WriteConfig,
    {
        (Restore { stage: RestoreStage::Config, error: String::new() }, RestoreStep::WriteConfig)
    }

    /// Takes the outcome of the last step and gives the next one.
    pub fn reported(&mut self, r: Result<(), String>) -> (step: RestoreStep)
        requires
            old(self)@.stage != RestoreStage::Over,
        ensures
            (final(self)@, step@) == restore_after(old(self)@, result_view(r)),
    {
        match self.stage {
            RestoreStage::Config | RestoreStage::Peace => match r {
                Err(e) => {
                    self.stage = RestoreStage::Over;
                    self.error = e.clone();
                    RestoreStep::Finish(Err(e))
                },
                Ok(()) => if self.stage == RestoreStage::Config {
                    self.stage = RestoreStage::Save;
                    RestoreStep::SaveDatabase
                } else {
                    self.stage = RestoreStage::Autostart;
                    RestoreStep::DisableAutostart
                },
            },
            RestoreStage::Save => match r {
                Err(e) => {
                    self.stage = RestoreStage::Undo;
                    self.error = e;
                    RestoreStep::RewriteRoot
                },
                Ok(()) => {
                    self.stage = RestoreStage::Peace;
                    RestoreStep::RestorePeace
                },
            },
            RestoreStage::Undo => {
                self.stage = RestoreStage::Over;
                RestoreStep::Finish(Err(self.error.clone()))
            },
            RestoreStage::Autostart | RestoreStage::Over => {
                self.stage = RestoreStage::Over;
                RestoreStep::Finish(Ok(()))
            },
        }
    }
}

/// A restoration reports success only after the original `config.txt`, the
/// database and Peace's startup were all restored; a database that could not
/// be stored leaves the owned root `config.txt` written again and reports
/// why, whatever that write gave.
pub proof fn restore_undoes_failed_save(s: RestoreView, e: Seq<char>, r: Result<(), Seq<char>>)
    requires
        s.stage == RestoreStage::Save,
    ensures
        restore_after(s, Err(e)).1 == RestoreStepView::RewriteRoot,
        restore_after(restore_after(s, Err(e)).0, r).1 == RestoreStepView::Finish(Err(e)),
        restore_after(s, Ok(())).1 == RestoreStepView::RestorePeace,
{
}

// ---------------------------------------------------------------------------
// Changing the preferences
// ---------------------------------------------------------------------------
#[derive(Clone, Copy, Debug, PartialEq, Eq, Structural)]
pub enum SettingsStage {
    /// Waiting for Windows startup to be switched as the new preferences say.
    Switch,
    /// Waiting for the database to be stored.
    Save,
    /// Waiting for Windows startup to be switched back.
    Revert,
    /// Finished.
    Over,
}

/// What the application does next to store new preferences.
pub enum SettingsStep {
    SetAutostart(bool),
    SaveDatabase,
    Finish(Result<(), String>),
}

pub enum SettingsStepView {
    SetAutostart(bool),
    SaveDatabase,
    Finish(Result<(), Seq<char>>),
}

impl View for SettingsStep {
    type V = SettingsStepView;

    open spec fn view(&self) -> SettingsStepView {
        match self {
            SettingsStep::SetAutostart(b) => SettingsStepView::SetAutostart(*b),
            SettingsStep::SaveDatabase => SettingsStepView::SaveDatabase,
            SettingsStep::Finish(r) => SettingsStepView::Finish(result_view(*r)),
        }
    }
}

/// Storing new preferences: the stage, the Windows startup choice stored
/// before, and the failure to report.
pub struct SettingsChange {
    stage: SettingsStage,
    before: bool,
    error: String,
}

pub struct SettingsChangeView {
    pub stage: SettingsStage,
    pub before: bool,
    pub error: Seq<char>,
}

impl View for SettingsChange {
    type V = SettingsChangeView;

    closed spec fn view(&self) -> SettingsChangeView {
        SettingsChangeView { stage: self.stage, before: self.before, error: self.error@ }
    }
}

/// How storing new preferences starts: Windows startup is switched first
/// when the choice changes, else the database is stored at once.
pub open spec fn settings_start(before: bool, after: bool) -> (SettingsChangeView, SettingsStepView) {
    if before != after {
        (
            SettingsChangeView { stage: SettingsStage::Switch, before, error: Seq::empty() },
            SettingsStepView::SetAutostart(after),
        )
    } else {
        (
            SettingsChangeView { stage: SettingsStage::Save, before, error: Seq::empty() },
            SettingsStepView::SaveDatabase,
        )
    }
}

/// The next stage and step: a failed switch is reported; a database that
/// could not be stored has Windows startup set back to the stored choice,
/// whatever that gives, and the failure reported.
pub open spec fn settings_after(s: SettingsChangeView, r: Result<(), Seq<char>>) -> (
    SettingsChangeView,
    SettingsStepView,
) {
    match s.stage {
        SettingsStage::Switch => match r {
            Err(e) => (
                SettingsChangeView { stage: SettingsStage::Over, error: e, ..s },
                SettingsStepView::Finish(Err(e)),
            ),
            Ok(_) => (SettingsChangeView { stage: SettingsStage::Save, ..s }, SettingsStepView::SaveDatabase),
        },
        SettingsStage::Save => match r {
            Err(e) => (
                SettingsChangeView { stage: SettingsStage::Revert, error: e, ..s },
                SettingsStepView::SetAutostart(s.before),
            ),
            Ok(_) => (SettingsChangeView { stage: SettingsStage::Over, ..s }, SettingsStepView::Finish(Ok(()))),
        },
        SettingsStage::Revert => (
            SettingsChangeView { stage: SettingsStage::Over, ..s },
            SettingsStepView::Finish(Err(s.error)),
        ),
        SettingsStage::Over => (s, SettingsStepView::Finish(Ok(()))),
    }
}

impl SettingsChange {
    pub fn begin(before: bool, after: bool) -> (r: (SettingsChange, SettingsStep))
        ensures
            (r.0@, r.1@) == settings_start(before, after),
    {
        if before != after {
            (
                SettingsChange { stage: SettingsStage::Switch, before, error: String::new() },
                SettingsStep::SetAutostart(after),
            )
        } else {
            (
                SettingsChange { stage: SettingsStage::Save, before, error: String::new() },
                SettingsStep::SaveDatabase,
            )
        }
    }

    /// Takes the outcome of the last step and gives the next one.
    pub fn reported(&mut self, r: Result<(), String>) -> (step: SettingsStep)
        requires
            old(self)@.stage != SettingsStage::Over,
        ensures
            (final(self)@, step@) == settings_after(old(self)@, result_view(r)),
    {
        match self.stage {
            SettingsStage::Switch => match r {
                Err(e) => {
                    self.stage = SettingsStage::Over;
                    self.error = e.clone();
                    SettingsStep::Finish(Err(e))
                },
                Ok(()) => {
                    self.stage = SettingsStage::Save;
                    SettingsStep::SaveDatabase
                },
            },
            SettingsStage::Save => match r {
                Err(e) => {
                    self.stage = SettingsStage::Revert;
                    self.error = e;
                    SettingsStep::SetAutostart(self.before)
                },
                Ok(()) => {
                    self.stage = SettingsStage::Over;
                    SettingsStep::Finish(Ok(()))
                },
            },
            SettingsStage::Revert => {
                self.stage = SettingsStage::Over;
                SettingsStep::Finish(Err(self.error.clone()))
            },
            SettingsStage::Over => SettingsStep::Finish(Ok(())),
        }
    }
}

/// Preferences that could not be stored leave Windows startup as the stored
/// preferences had it, and the failure is reported.
pub proof fn failed_settings_revert_autostart(
    before: bool,
    after: bool,
    r1: Result<(), Seq<char>>,
    e: Seq<char>,
    r3: Result<(), Seq<char>>,
)
    ensures
        ({
            let (s0, a0) = settings_start(before, after);
            let s1 = if before != after {
                settings_after(s0, r1).0
            } else {
                s0
            };
            (before != after ==> a0 == SettingsStepView::SetAutostart(after))
                && ((before == after || r1 is Ok) ==> s1.stage == SettingsStage::Save
                && settings_after(s1, Err(e)).1 == SettingsStepView::SetAutostart(before)
                && settings_after(settings_after(s1, Err(e)).0, r3).1 == SettingsStepView::Finish(
                Err(e),
            ))
        }),
{
}

// ---------------------------------------------------------------------------
// Startup
// ---------------------------------------------------------------------------
/// What the application does once it has started.
pub struct Startup {
    /// The profile to apply again, without a notification.
    pub restore: Option<String>,
    /// Whether to open the control center.
    pub open_main: bool,
}

/// At startup the active profile is applied again when integration is
/// installed, the user wants the last profile restored and the APO files are
/// still owned; the control center opens unless integration is installed and
/// the application was started in the background to stay in the tray.
pub fn startup_plan(db: &Database, owned: bool, background: bool) -> (r: Startup)
    ensures
        r.restore is Some == (db@.integration.installed && db@.settings.restore_last_profile
            && owned),
        r.restore matches Some(id) ==> id@ == db@.active_profile,
        r.open_main == (!db@.integration.installed || !background
            || !db@.settings.start_in_tray),
{
    let restore = if db.integration.installed && db.settings.restore_last_profile && owned {
        Some(db.active_profile.clone())
    } else {
        None
    };
    Startup {
        restore,
        open_main: !db.integration.installed || !background || !db.settings.start_in_tray,
    }
}

// ---------------------------------------------------------------------------
// Laws
// ---------------------------------------------------------------------------
/// Switching, managing profiles and headphones and importing keep the
/// hotkeys in key order, each profile once.
pub proof fn commands_keep_hotkeys_ordered(
    db: DatabaseView,
    n: DatabaseView,
    id: Seq<char>,
    action: Seq<char>,
    oid: Option<Seq<char>>,
    nid: Seq<char>,
    name: Seq<char>,
    p: ProfileView,
    rename: Option<Seq<char>>,
    provenance: Seq<char>,
)
    requires
        bindings_ordered(db.settings.shortcuts),
    ensures
        activation_of(db, id, Ok(n)) ==> bindings_ordered(n.settings.shortcuts),
        action_of(db, action, oid, Ok((n, nid))) ==> bindings_ordered(n.settings.shortcuts),
        headphone_of(db, action, id, name, Ok(n)) ==> bindings_ordered(n.settings.shortcuts),
        import_of(db, p, rename, provenance, Ok((n, nid))) ==> bindings_ordered(n.settings.shortcuts),
{
    if action == "delete"@ && position_of(db, oid) is Some {
        let i = position_of(db, oid)->0;
        unbound_keeps_order(db.settings.shortcuts, db.profiles[i].id);
    }
}

/// Moving a profile swaps it with the profile just above it (`up`) or just
/// below it (`down`) and changes nothing else; a profile already at that end
/// of the list stays where it is.
pub proof fn moving_swaps_with_neighbour(
    db: DatabaseView,
    action: Seq<char>,
    x: Seq<char>,
    i: int,
    n: DatabaseView,
    rid: Seq<char>,
)
    requires
        action == "up"@ || action == "down"@,
        is_first(db.profiles, x, i),
        action_of(db, action, Some(x), Ok((n, rid))),
    ensures
        rid == x,
        n == (DatabaseView { profiles: n.profiles, ..db }),
        n.profiles.len() == db.profiles.len(),
        action == "down"@ && i + 1 < db.profiles.len() ==> n.profiles[i + 1] == db.profiles[i]
            && n.profiles[i] == db.profiles[i + 1] && forall|j: int|
            0 <= j < db.profiles.len() && j != i && j != i + 1 ==> #[trigger] n.profiles[j]
                == db.profiles[j],
        action == "up"@ && i > 0 ==> n.profiles[i - 1] == db.profiles[i] && n.profiles[i]
            == db.profiles[i - 1] && forall|j: int|
            0 <= j < db.profiles.len() && j != i && j != i - 1 ==> #[trigger] n.profiles[j]
                == db.profiles[j],
        (action == "down"@ && i + 1 == db.profiles.len()) || (action == "up"@ && i == 0)
            ==> n.profiles == db.profiles,
{
    reveal_strlit("up");
    reveal_strlit("down");
    reveal_strlit("create");
    reveal_strlit("duplicate");
    reveal_strlit("delete");
    assert("up"@.len() == 2 && "down"@.len() == 4 && "create"@.len() == 6 && "duplicate"@.len() == 9
        && "delete"@.len() == 6);
    assert(has_profile(db.profiles, x));
    lemma_first(db.profiles, x, i);
    assert(position_of(db, Some(x)) == Some(i));
    assert(action != "create"@ && action != "duplicate"@ && action != "delete"@);
    let m = moved(db, i, action == "up"@);
    assert(n == m);
}

/// Every profile and the selection name a headphone that exists.
pub open spec fn headphones_referenced(db: DatabaseView) -> bool {
    &&& has_headphone(db.headphones, db.selected_headphone)
    &&& forall|k: int|
        0 <= k < db.profiles.len() ==> has_headphone(db.headphones, #[trigger] db.profiles[k].headphone_id)
}

proof fn lemma_kept(hs: Seq<HeadphoneView>, id: Seq<char>, x: Seq<char>)
    ensures
        has_headphone(kept(hs, id), x) == (has_headphone(hs, x) && x != id),
    decreases hs.len(),
{
    if hs.len() > 0 {
        let d = hs.drop_last();
        lemma_kept(d, id, x);
        if has_headphone(d, x) {
            let k = choose|k: int| 0 <= k < d.len() && (#[trigger] d[k]).id == x;
            assert(hs[k] == d[k]);
        }
        if has_headphone(hs, x) && !has_headphone(d, x) {
            let k = choose|k: int| 0 <= k < hs.len() && (#[trigger] hs[k]).id == x;
            if k < d.len() {
                assert(d[k] == hs[k]);
            }
        }
        if hs.last().id != id {
            let u = kept(d, id);
            if has_headphone(u, x) {
                let k = choose|k: int| 0 <= k < u.len() && (#[trigger] u[k]).id == x;
                assert(u.push(hs.last())[k] == u[k]);
            }
            if x == hs.last().id {
                assert(u.push(hs.last())[u.len() as int] == hs.last());
            }
            if has_headphone(u.push(hs.last()), x) && x != hs.last().id {
                let k = choose|k: int| 0 <= k < u.len() + 1 && (#[trigger] u.push(hs.last())[k]).id == x;
                assert(u.push(hs.last())[k] == u[k]);
            }
        }
    }
}

/// No headphone action leaves a profile, or the selection, with a headphone
/// that no longer exists: a headphone that a profile uses, or that is
/// selected, cannot be deleted.
pub proof fn headphone_actions_keep_references(
    db: DatabaseView,
    action: Seq<char>,
    id: Seq<char>,
    name: Seq<char>,
    n: DatabaseView,
)
    requires
        headphones_referenced(db),
        headphone_of(db, action, id, name, Ok(n)),
    ensures
        headphones_referenced(n),
        n.profiles == db.profiles,
{
    let hs = db.headphones;
    if action == "create"@ {
        assert forall|x: Seq<char>| has_headphone(hs, x) implies has_headphone(n.headphones, x) by {
            let k = choose|k: int| 0 <= k < hs.len() && (#[trigger] hs[k]).id == x;
            assert(n.headphones[k] == hs[k]);
        }
        assert(has_headphone(n.headphones, n.selected_headphone));
    } else if action == "rename"@ {
        let i = first_headphone(hs, id);
        let k0 = choose|k: int| 0 <= k < hs.len() && (#[trigger] hs[k]).id == id;
        lemma_headphone_first(hs, id, k0);
        assert(is_first_headphone(hs, id, i));
        assert forall|x: Seq<char>| has_headphone(hs, x) implies has_headphone(n.headphones, x) by {
            let k = choose|k: int| 0 <= k < hs.len() && (#[trigger] hs[k]).id == x;
            assert(n.headphones[k].id == hs[k].id);
        }
        assert(has_headphone(n.headphones, n.selected_headphone));
    } else if action == "select"@ {
    } else if action == "delete"@ {
        lemma_kept(hs, id, n.selected_headphone);
        assert forall|k: int| 0 <= k < n.profiles.len() implies has_headphone(
            n.headphones,
            #[trigger] n.profiles[k].headphone_id,
        ) by {
            lemma_kept(hs, id, n.profiles[k].headphone_id);
            if n.profiles[k].headphone_id == id {
                assert(headphone_used(db.profiles, id));
            }
        }
    }
}

proof fn lemma_headphone_first(hs: Seq<HeadphoneView>, id: Seq<char>, j: int)
    requires
        0 <= j < hs.len(),
        hs[j].id == id,
    ensures
        is_first_headphone(hs, id, first_headphone(hs, id)),
    decreases j,
{
    if exists|e: int| 0 <= e < j && (#[trigger] hs[e]).id == id {
        let e = choose|e: int| 0 <= e < j && (#[trigger] hs[e]).id == id;
        lemma_headphone_first(hs, id, e);
    } else {
        assert(is_first_headphone(hs, id, j));
    }
}

/// Refreshing the APO text changes nothing but the expected active text.
pub proof fn regenerate_keeps_selection(old: DatabaseView, n: DatabaseView)
    requires
        regenerated(old, Ok(n)),
    ensures
        n == with_active_text(old, n.integration.expected_active),
{
}

/// Invalid or incomplete values never reach APO: whenever the APO text is
/// refreshed for installed integration, it is the text generated for a
/// valid active profile on a well-formed endpoint.
pub proof fn only_valid_profiles_reach_apo(old: DatabaseView, n: DatabaseView)
    requires
        regenerated(old, Ok(n)),
        old.integration.installed,
    ensures
        has_profile(old.profiles, old.active_profile),
        profile_error(active_of(old)) is None,
        device_guid(old.integration.device_id),
        n.integration.expected_active == generated_text(active_of(old), old.integration.device_id),
{
}

/// Turning EQ off always succeeds on a valid endpoint: Stock, when valid,
/// has no filters, so its APO text cannot meet an ID collision.
pub proof fn stock_switch_succeeds(db: DatabaseView, r: Result<DatabaseView, Seq<char>>)
    requires
        db.integration.installed,
        device_guid(db.integration.device_id),
        has_profile(db.profiles, stock_id()),
        profile_error(db.profiles[first_index(db.profiles, stock_id())]) is None,
        activation_of(db, stock_id(), r),
    ensures
        r == Ok::<DatabaseView, Seq<char>>(
            with_active_text(
                switched(db, stock_id()),
                generated_text(db.profiles[first_index(db.profiles, stock_id())], db.integration.device_id),
            ),
        ),
{
    lemma_first_exists(db.profiles, stock_id());
    crate::model::stock_is_bypass(db.profiles[first_index(db.profiles, stock_id())]);
}

/// The EQ switch remembers the last enabled profile: after activating a
/// profile other than Stock, toggling selects Stock, and toggling again
/// selects that profile.
pub proof fn toggle_remembers(db: DatabaseView, x: Seq<char>, a: DatabaseView, b: DatabaseView)
    requires
        x != stock_id(),
        activation_of(db, x, Ok(a)),
        activation_of(a, toggled(a), Ok(b)),
    ensures
        a.active_profile == x,
        toggled(a) == stock_id(),
        b.active_profile == stock_id(),
        toggled(b) == x,
{
    regenerate_keeps_selection(switched(db, x), a);
    regenerate_keeps_selection(switched(a, toggled(a)), b);
}

/// Stock is immutable: a successful edit leaves every Stock profile as it
/// was.
pub proof fn edits_keep_stock(
    db: DatabaseView,
    p: ProfileView,
    expected: Option<ProfileView>,
    n: DatabaseView,
    apply: bool,
    i: int,
)
    requires
        edit_of(db, p, expected, Ok((n, apply))),
        0 <= i < db.profiles.len(),
        db.profiles[i].id == stock_id(),
    ensures
        n.profiles.len() == db.profiles.len(),
        n.profiles[i] == db.profiles[i],
{
    let k = first_index(db.profiles, p.id);
    lemma_first_exists(db.profiles, p.id);
    regenerate_keeps_selection(with_profile(db, k, p), n);
}

/// Deleting a profile keeps Stock, the active profile and the last enabled
/// profile: those cannot be deleted, and no other deletion removes them.
pub proof fn deletion_keeps_required(
    db: DatabaseView,
    id: Option<Seq<char>>,
    n: DatabaseView,
    gone: Seq<char>,
    keep: Seq<char>,
)
    requires
        action_of(db, "delete"@, id, Ok((n, gone))),
        has_profile(db.profiles, keep),
        keep == stock_id() || keep == db.active_profile || keep == db.last_enabled,
    ensures
        has_profile(n.profiles, keep),
        n.active_profile == db.active_profile,
        n.last_enabled == db.last_enabled,
{
    reveal_strlit("delete");
    reveal_strlit("create");
    reveal_strlit("duplicate");
    assert("delete"@[0] != "create"@[0]);
    assert("delete"@ != "duplicate"@) by {
        assert("delete"@.len() != "duplicate"@.len());
    }
    let i = position_of(db, id)->0;
    lemma_first_exists(db.profiles, id->0);
    let k = choose|k: int| 0 <= k < db.profiles.len() && (#[trigger] db.profiles[k]).id == keep;
    assert(db.profiles[i].id != keep);
    assert(k != i);
    let rest = db.profiles.remove(i);
    if k < i {
        assert(rest[k] == db.profiles[k]);
        assert(rest[k].id == keep);
    } else {
        assert(rest[k - 1] == db.profiles[k]);
        assert(rest[k - 1].id == keep);
    }
}

} // verus!
