//! The tray menu and the hotkeys, as data: what the tray shows for a
//! database, and which hotkeys are registered for which profiles.

use vstd::prelude::*;
use crate::commands::{first_index, is_text, locate};
use crate::model::{
    binding_views, has_profile, profile_views, stock_id, text, Binding, BindingView, Database,
    DatabaseView, ProfileView,
};
use crate::text::{chars_of, trim, trimmed};

verus! {

/// An audio output endpoint as the platform reports it.
#[derive(Clone, Debug)]
pub struct Device {
    pub id: String,
    pub name: String,
    pub connected: bool,
    pub apo_registered: bool,
    pub enhancements_disabled: bool,
}

pub struct DeviceView {
    pub id: Seq<char>,
    pub name: Seq<char>,
    pub connected: bool,
    pub apo_registered: bool,
    pub enhancements_disabled: bool,
}

impl View for Device {
    type V = DeviceView;

    open spec fn view(&self) -> DeviceView {
        DeviceView {
            id: self.id@,
            name: self.name@,
            connected: self.connected,
            apo_registered: self.apo_registered,
            enhancements_disabled: self.enhancements_disabled,
        }
    }
}

pub open spec fn device_views(v: Seq<Device>) -> Seq<DeviceView> {
    v.map_values(|d: Device| d@)
}

/// One entry of the tray menu.
pub struct TrayItem {
    pub id: String,
    pub label: String,
    pub enabled: bool,
    pub checked: bool,
}

pub struct TrayItemView {
    pub id: Seq<char>,
    pub label: Seq<char>,
    pub enabled: bool,
    pub checked: bool,
}

impl View for TrayItem {
    type V = TrayItemView;

    open spec fn view(&self) -> TrayItemView {
        TrayItemView { id: self.id@, label: self.label@, enabled: self.enabled, checked: self.checked }
    }
}

pub open spec fn item_views(v: Seq<TrayItem>) -> Seq<TrayItemView> {
    v.map_values(|t: TrayItem| t@)
}

/// The tray menu: a status line, the current profile, one entry per profile
/// shown, the EQ switch and the tooltip. The fixed entries (open, settings,
/// exit) are always there.
pub struct TrayMenu {
    pub status: String,
    pub current: String,
    pub profiles: Vec<TrayItem>,
    pub toggle_enabled: bool,
    pub toggle_checked: bool,
    pub tooltip: String,
}

pub struct TrayMenuView {
    pub status: Seq<char>,
    pub current: Seq<char>,
    pub profiles: Seq<TrayItemView>,
    pub toggle_enabled: bool,
    pub toggle_checked: bool,
    pub tooltip: Seq<char>,
}

impl View for TrayMenu {
    type V = TrayMenuView;

    open spec fn view(&self) -> TrayMenuView {
        TrayMenuView {
            status: self.status@,
            current: self.current@,
            profiles: item_views(self.profiles@),
            toggle_enabled: self.toggle_enabled,
            toggle_checked: self.toggle_checked,
            tooltip: self.tooltip@,
        }
    }
}

pub open spec fn has_device(ds: Seq<DeviceView>, id: Seq<char>) -> bool {
    exists|i: int| 0 <= i < ds.len() && (#[trigger] ds[i]).id == id
}

pub open spec fn is_first_device(ds: Seq<DeviceView>, id: Seq<char>, i: int) -> bool {
    &&& 0 <= i < ds.len()
    &&& ds[i].id == id
    &&& forall|j: int| 0 <= j < i ==> (#[trigger] ds[j]).id != id
}

pub open spec fn first_device(ds: Seq<DeviceView>, id: Seq<char>) -> int {
    choose|i: int| is_first_device(ds, id, i)
}

/// The status line: setup, ownership, then the selected endpoint.
pub open spec fn status_label(db: DatabaseView, owned: bool, ds: Seq<DeviceView>) -> Seq<char> {
    let id = db.integration.device_id;
    if !db.integration.installed {
        "Setup needed"@
    } else if !owned {
        "⚠ Configuration needs attention"@
    } else if has_device(ds, id) && ds[first_device(ds, id)].connected {
        "● "@ + ds[first_device(ds, id)].name + " connected"@
    } else {
        "○ Output disconnected"@
    }
}

/// The symbol shown before a profile name, by its icon.
pub open spec fn symbol(icon: Seq<char>) -> Seq<char> {
    if icon == "music"@ {
        "♫"@
    } else if icon == "film"@ {
        "🎬"@
    } else if icon == "gamepad"@ {
        "🎮"@
    } else if icon == "target"@ {
        "🎯"@
    } else if icon == "mic"@ {
        "💬"@
    } else if icon == "power"@ {
        "🔊"@
    } else {
        "🎧"@
    }
}

/// Profiles of the selected headphone are listed, and Stock and the active
/// profile always.
pub open spec fn listed(p: ProfileView, db: DatabaseView) -> bool {
    p.headphone_id == db.selected_headphone || p.id == stock_id() || p.id == db.active_profile
}

pub open spec fn item_of(p: ProfileView, db: DatabaseView) -> TrayItemView {
    TrayItemView {
        id: "profile:"@ + p.id,
        label: symbol(p.icon) + " "@ + p.name,
        enabled: db.integration.installed,
        checked: p.id == db.active_profile,
    }
}

pub open spec fn items(ps: Seq<ProfileView>, db: DatabaseView) -> Seq<TrayItemView>
    decreases ps.len(),
{
    if ps.len() == 0 {
        Seq::empty()
    } else if listed(ps.last(), db) {
        items(ps.drop_last(), db).push(item_of(ps.last(), db))
    } else {
        items(ps.drop_last(), db)
    }
}

proof fn lemma_items(ps: Seq<ProfileView>, db: DatabaseView)
    ensures
        forall|i: int|
            0 <= i < items(ps, db).len() ==> exists|k: int|
                0 <= k < ps.len() && listed(ps[k], db) && #[trigger] items(ps, db)[i] == item_of(
                    ps[k],
                    db,
                ),
        forall|k: int|
            0 <= k < ps.len() && listed(ps[k], db) ==> exists|i: int|
                0 <= i < items(ps, db).len() && items(ps, db)[i] == item_of(#[trigger] ps[k], db),
    decreases ps.len(),
{
    if ps.len() > 0 {
        let d = ps.drop_last();
        lemma_items(d, db);
        let u = items(d, db);
        let last = ps.len() - 1;
        assert forall|i: int| 0 <= i < items(ps, db).len() implies exists|k: int|
            0 <= k < ps.len() && listed(ps[k], db) && #[trigger] items(ps, db)[i] == item_of(
                ps[k],
                db,
            ) by {
            if i < u.len() {
                assert(items(ps, db)[i] == u[i]);
                let k = choose|k: int|
                    0 <= k < d.len() && listed(d[k], db) && #[trigger] u[i] == item_of(d[k], db);
                assert(ps[k] == d[k]);
            } else {
                assert(ps[last] == ps.last());
            }
        }
        assert forall|k: int| 0 <= k < ps.len() && listed(ps[k], db) implies exists|i: int|
            0 <= i < items(ps, db).len() && items(ps, db)[i] == item_of(#[trigger] ps[k], db) by {
            if k < last {
                assert(d[k] == ps[k]);
                let i = choose|i: int| 0 <= i < u.len() && u[i] == item_of(#[trigger] d[k], db);
                assert(items(ps, db)[i] == u[i]);
            } else {
                assert(items(ps, db)[u.len() as int] == item_of(ps.last(), db));
            }
        }
    }
}

/// A tray entry stands for a profile of the selected headphone, for Stock or
/// for the active profile: its ID is that profile's ID behind `profile:`,
/// and it is checked when that profile is the active one.
pub open spec fn entry_of_listed(e: TrayItemView, db: DatabaseView) -> bool {
    exists|k: int|
        0 <= k < db.profiles.len() && (db.profiles[k].headphone_id == db.selected_headphone
            || db.profiles[k].id == stock_id() || db.profiles[k].id == db.active_profile) && e.id
            == "profile:"@ + (#[trigger] db.profiles[k]).id && e.checked == (db.profiles[k].id
            == db.active_profile)
}

pub open spec fn has_entry(es: Seq<TrayItemView>, id: Seq<char>) -> bool {
    exists|i: int| 0 <= i < es.len() && (#[trigger] es[i]).id == "profile:"@ + id
}

/// The tray lists a profile exactly when it belongs to the selected
/// headphone, is Stock, or is the active profile: every entry stands for
/// such a profile, and every such profile has an entry.
pub proof fn tray_lists_profiles_of_selected_headphone(db: DatabaseView, owned: bool, ds: Seq<DeviceView>)
    ensures
        forall|i: int|
            0 <= i < tray_of(db, owned, ds).profiles.len() ==> entry_of_listed(
                #[trigger] tray_of(db, owned, ds).profiles[i],
                db,
            ),
        forall|k: int|
            0 <= k < db.profiles.len() && (db.profiles[k].headphone_id == db.selected_headphone
                || db.profiles[k].id == stock_id() || db.profiles[k].id == db.active_profile)
                ==> has_entry(tray_of(db, owned, ds).profiles, (#[trigger] db.profiles[k]).id),
{
    lemma_items(db.profiles, db);
    let es = tray_of(db, owned, ds).profiles;
    assert(es == items(db.profiles, db));
    assert forall|i: int| 0 <= i < es.len() implies entry_of_listed(#[trigger] es[i], db) by {
        let k = choose|k: int|
            0 <= k < db.profiles.len() && listed(db.profiles[k], db) && #[trigger] items(db.profiles, db)[i]
                == item_of(db.profiles[k], db);
        assert(es[i] == item_of(db.profiles[k], db));
    }
    assert forall|k: int|
        0 <= k < db.profiles.len() && (db.profiles[k].headphone_id == db.selected_headphone
            || db.profiles[k].id == stock_id() || db.profiles[k].id == db.active_profile) implies has_entry(
        es,
        (#[trigger] db.profiles[k]).id,
    ) by {
        assert(listed(db.profiles[k], db));
        let i = choose|i: int| 0 <= i < es.len() && es[i] == item_of(#[trigger] db.profiles[k], db);
        assert(es[i].id == "profile:"@ + db.profiles[k].id);
    }
}

/// The whole tray menu for a database whose active profile exists.
pub open spec fn tray_of(db: DatabaseView, owned: bool, ds: Seq<DeviceView>) -> TrayMenuView {
    let active = db.profiles[first_index(db.profiles, db.active_profile)];
    TrayMenuView {
        status: status_label(db, owned, ds),
        current: "Current: "@ + active.name,
        profiles: items(db.profiles, db),
        toggle_enabled: db.integration.installed,
        toggle_checked: db.active_profile != stock_id(),
        tooltip: "Ananda Control • "@ + active.name + if owned {
            Seq::empty()
        } else {
            " • Setup / attention needed"@
        },
    }
}

fn find_device(ds: &Vec<Device>, id: &String) -> (r: Option<usize>)
    ensures
        r is Some == has_device(device_views(ds@), id@),
        r matches Some(i) ==> i < ds.len() && i == first_device(device_views(ds@), id@),
{
    let mut i: usize = 0;
    while i < ds.len()
        invariant
            i <= ds.len(),
            forall|j: int| 0 <= j < i ==> (#[trigger] ds@[j]).id@ != id@,
        decreases ds.len() - i,
    {
        if ds[i].id == *id {
            proof {
                let vs = device_views(ds@);
                assert(vs[i as int].id == id@);
                assert forall|j: int| 0 <= j < i implies (#[trigger] vs[j]).id != id@ by {
                    assert(vs[j] == ds@[j]@);
                }
                let k = first_device(vs, id@);
                assert(is_first_device(vs, id@, i as int));
                assert(is_first_device(vs, id@, k));
                if k < i {
                    assert(vs[k].id != id@);
                } else if (i as int) < k {
                    assert(vs[i as int].id != id@);
                }
            }
            return Some(i);
        }
        i += 1;
    }
    assert(!has_device(device_views(ds@), id@)) by {
        if has_device(device_views(ds@), id@) {
            let k = choose|k: int| 0 <= k < ds.len() && (#[trigger] device_views(ds@)[k]).id == id@;
            assert(ds@[k].id@ == id@);
        }
    }
    None
}

fn symbol_of(icon: &String) -> (r: String)
    ensures
        r@ == symbol(icon@),
{
    if is_text(icon, "music") {
        text("♫")
    } else if is_text(icon, "film") {
        text("🎬")
    } else if is_text(icon, "gamepad") {
        text("🎮")
    } else if is_text(icon, "target") {
        text("🎯")
    } else if is_text(icon, "mic") {
        text("💬")
    } else if is_text(icon, "power") {
        text("🔊")
    } else {
        text("🎧")
    }
}

fn status_of(db: &Database, owned: bool, ds: &Vec<Device>) -> (r: String)
    ensures
        r@ == status_label(db@, owned, device_views(ds@)),
{
    if !db.integration.installed {
        return text("Setup needed");
    }
    if !owned {
        return text("⚠ Configuration needs attention");
    }
    match find_device(ds, &db.integration.device_id) {
        Some(i) => {
            assert(device_views(ds@)[i as int] == ds@[i as int]@);
            if ds[i].connected {
                let mut m = text("● ");
                m.append(ds[i].name.as_str());
                m.append(" connected");
                return m;
            }
        },
        None => {},
    }
    text("○ Output disconnected")
}

/// The tray menu for the database, whether the APO files are owned, and the
/// endpoints present.
pub fn tray_menu(db: &Database, owned: bool, ds: &Vec<Device>) -> (r: TrayMenu)
    requires
        has_profile(db@.profiles, db@.active_profile),
    ensures
        r@ == tray_of(db@, owned, device_views(ds@)),
{
    let a = match locate(&db.profiles, &db.active_profile) {
        Some(a) => a,
        None => 0,
    };
    assert(profile_views(db.profiles@)[a as int] == db.profiles@[a as int]@);
    let active = &db.profiles[a];
    let mut items_out: Vec<TrayItem> = Vec::new();
    let mut i: usize = 0;
    let ghost dv = db@;
    while i < db.profiles.len()
        invariant
            i <= db.profiles.len(),
            dv == db@,
            item_views(items_out@) == items(dv.profiles.take(i as int), dv),
        decreases db.profiles.len() - i,
    {
        let p = &db.profiles[i];
        let ghost before = dv.profiles.take(i as int);
        assert(dv.profiles.take(i + 1).drop_last() =~= before);
        assert(dv.profiles[i as int] == p@);
        if p.headphone_id == db.selected_headphone || crate::model::is_stock(&p.id) || p.id
            == db.active_profile {
            let mut id = text("profile:");
            id.append(p.id.as_str());
            let mut label = symbol_of(&p.icon);
            label.append(" ");
            label.append(p.name.as_str());
            let item = TrayItem {
                id,
                label,
                enabled: db.integration.installed,
                checked: p.id == db.active_profile,
            };
            let ghost iv = item@;
            items_out.push(item);
            assert(item_views(items_out@) =~= items(before, dv).push(iv));
        }
        i += 1;
    }
    assert(dv.profiles.take(db.profiles.len() as int) =~= dv.profiles);
    let mut current = text("Current: ");
    current.append(active.name.as_str());
    let mut tooltip = text("Ananda Control • ");
    tooltip.append(active.name.as_str());
    if !owned {
        tooltip.append(" • Setup / attention needed");
    }
    assert(owned ==> tooltip@ =~= tooltip@ + Seq::<char>::empty());
    TrayMenu {
        status: status_of(db, owned, ds),
        current,
        profiles: items_out,
        toggle_enabled: db.integration.installed,
        toggle_checked: !crate::model::is_stock(&db.active_profile),
        tooltip,
    }
}

// ---------------------------------------------------------------------------
// Hotkeys
// ---------------------------------------------------------------------------
/// `a` sorts strictly before `b`, character by character.
pub open spec fn before(a: Seq<char>, b: Seq<char>) -> bool {
    exists|i: int|
        0 <= i <= a.len() && i <= b.len() && a.take(i) == b.take(i) && ((i == a.len() && i
            < b.len()) || (i < a.len() && i < b.len() && (a[i] as u32) < (b[i] as u32)))
}

pub fn sorts_before(a: &String, b: &String) -> (r: bool)
    ensures
        r == before(a@, b@),
{
    let x = chars_of(a.as_str());
    let y = chars_of(b.as_str());
    let mut i: usize = 0;
    while i < x.len() && i < y.len()
        invariant
            x@ == a@,
            y@ == b@,
            i <= x.len(),
            i <= y.len(),
            x@.take(i as int) == y@.take(i as int),
        decreases x.len() - i,
    {
        if x[i] != y[i] {
            let r = (x[i] as u32) < (y[i] as u32);
            proof {
                if r {
                    assert(before(a@, b@)) by {
                        assert(x@.take(i as int) == y@.take(i as int));
                    }
                } else {
                    assert(!before(a@, b@)) by {
                        if before(a@, b@) {
                            let j = choose|j: int|
                                0 <= j <= a@.len() && j <= b@.len() && a@.take(j) == b@.take(j)
                                    && ((j == a@.len() && j < b@.len()) || (j < a@.len() && j
                                    < b@.len() && (a@[j] as u32) < (b@[j] as u32)));
                            if j < i {
                                assert(x@.take(i as int)[j] == y@.take(i as int)[j]);
                            } else if j > i {
                                assert(a@.take(j)[i as int] == b@.take(j)[i as int]);
                            }
                        }
                    }
                }
            }
            return r;
        }
        assert(x@.take(i + 1) =~= x@.take(i as int).push(x@[i as int]));
        assert(y@.take(i + 1) =~= y@.take(i as int).push(y@[i as int]));
        i += 1;
    }
    let r = x.len() < y.len();
    proof {
        if r {
            assert(before(a@, b@)) by {
                assert(i == x.len());
            }
        } else {
            assert(!before(a@, b@)) by {
                if before(a@, b@) {
                    let j = choose|j: int|
                        0 <= j <= a@.len() && j <= b@.len() && a@.take(j) == b@.take(j) && ((j
                            == a@.len() && j < b@.len()) || (j < a@.len() && j < b@.len() && (
                        a@[j] as u32) < (b@[j] as u32)));
                    assert(j <= i);
                    if j < i {
                        assert(x@.take(i as int)[j] == y@.take(i as int)[j]);
                    }
                }
            }
        }
    }
    r
}

pub open spec fn quick_id() -> Seq<char> {
    "__quick"@
}

/// A binding is registered when it has keys and names an existing profile.
pub open spec fn registrable(b: BindingView, db: DatabaseView) -> bool {
    trim(b.keys).len() > 0 && has_profile(db.profiles, b.profile)
}

/// The registrable bindings that sort before (`low`) or after the quick
/// switcher's, in order.
pub open spec fn picked(bs: Seq<BindingView>, db: DatabaseView, low: bool) -> Seq<BindingView>
    decreases bs.len(),
{
    if bs.len() == 0 {
        Seq::empty()
    } else {
        let b = bs.last();
        let side = if low {
            before(b.profile, quick_id())
        } else {
            before(quick_id(), b.profile)
        };
        if side && registrable(b, db) {
            picked(bs.drop_last(), db, low).push(b)
        } else {
            picked(bs.drop_last(), db, low)
        }
    }
}

/// The hotkeys to register, in key order: the profile bindings and, under
/// `__quick`, the quick switcher's, each with keys and (for a profile) an
/// existing profile.
pub open spec fn hotkeys(db: DatabaseView) -> Seq<BindingView> {
    let q = BindingView { profile: quick_id(), keys: db.settings.quick_shortcut };
    picked(db.settings.shortcuts, db, true) + (if trim(q.keys).len() > 0 {
        seq![q]
    } else {
        Seq::empty()
    }) + picked(db.settings.shortcuts, db, false)
}

fn has_keys(k: &String) -> (r: bool)
    ensures
        r == (trim(k@).len() > 0),
{
    let v = chars_of(k.as_str());
    let t = trimmed(&v, 0, v.len());
    assert(v@.subrange(0, v@.len() as int) =~= v@);
    t.len() > 0
}

fn pick(db: &Database, low: bool, out: &mut Vec<Binding>)
    ensures
        binding_views(final(out)@) == binding_views(old(out)@) + picked(
            binding_views(db.settings.shortcuts@),
            db@,
            low,
        ),
{
    let quick = text("__quick");
    let bs = &db.settings.shortcuts;
    let ghost start = binding_views(out@);
    let mut i: usize = 0;
    while i < bs.len()
        invariant
            i <= bs.len(),
            bs == &db.settings.shortcuts,
            quick@ == quick_id(),
            binding_views(out@) == start + picked(binding_views(bs@).take(i as int), db@, low),
        decreases bs.len() - i,
    {
        let b = &bs[i];
        let ghost before_i = binding_views(bs@).take(i as int);
        assert(binding_views(bs@).take(i + 1).drop_last() =~= before_i);
        assert(binding_views(bs@)[i as int] == b@);
        let side = if low {
            sorts_before(&b.profile, &quick)
        } else {
            sorts_before(&quick, &b.profile)
        };
        if side && has_keys(&b.keys) && locate(&db.profiles, &b.profile).is_some() {
            let ghost prior = binding_views(out@);
            let nb = Binding { profile: b.profile.clone(), keys: b.keys.clone() };
            assert(nb@ == b@);
            out.push(nb);
            assert(binding_views(out@) =~= prior.push(b@));
            assert(binding_views(out@) =~= start + picked(before_i, db@, low).push(b@));
        }
        i += 1;
    }
    assert(binding_views(bs@).take(bs.len() as int) =~= binding_views(bs@));
}

/// The hotkeys to register for a database.
pub fn shortcut_plan(db: &Database) -> (r: Vec<Binding>)
    ensures
        binding_views(r@) == hotkeys(db@),
{
    let mut out: Vec<Binding> = Vec::new();
    pick(db, true, &mut out);
    let ghost low = binding_views(out@);
    if has_keys(&db.settings.quick_shortcut) {
        out.push(Binding { profile: text("__quick"), keys: db.settings.quick_shortcut.clone() });
    }
    let ghost mid = binding_views(out@);
    pick(db, false, &mut out);
    proof {
        let q = BindingView { profile: quick_id(), keys: db@.settings.quick_shortcut };
        let part: Seq<BindingView> = if trim(q.keys).len() > 0 {
            seq![q]
        } else {
            Seq::empty()
        };
        assert(mid =~= low + part);
        assert(binding_views(out@) =~= hotkeys(db@));
    }
    out
}

proof fn lemma_picked_keys(bs: Seq<BindingView>, db: DatabaseView, low: bool)
    ensures
        forall|i: int|
            0 <= i < picked(bs, db, low).len() ==> trim((#[trigger] picked(bs, db, low)[i]).keys).len() > 0
                && has_profile(db.profiles, picked(bs, db, low)[i].profile),
    decreases bs.len(),
{
    if bs.len() > 0 {
        lemma_picked_keys(bs.drop_last(), db, low);
        let rest = picked(bs.drop_last(), db, low);
        let all = picked(bs, db, low);
        assert forall|i: int| 0 <= i < all.len() implies trim((#[trigger] all[i]).keys).len() > 0
            && has_profile(db.profiles, all[i].profile) by {
            if i < rest.len() {
                assert(all[i] == rest[i]);
            } else {
                assert(all[i] == bs.last());
            }
        }
    }
}

/// An empty binding disables its hotkey: every hotkey registered has keys,
/// and every one but the quick switcher's names an existing profile.
pub proof fn blank_bindings_not_registered(db: DatabaseView)
    ensures
        forall|i: int|
            0 <= i < hotkeys(db).len() ==> trim((#[trigger] hotkeys(db)[i]).keys).len() > 0 && (
            hotkeys(db)[i].profile == quick_id() || has_profile(db.profiles, hotkeys(db)[i].profile)),
{
    lemma_picked_keys(db.settings.shortcuts, db, true);
    lemma_picked_keys(db.settings.shortcuts, db, false);
    let lo = picked(db.settings.shortcuts, db, true);
    let hi = picked(db.settings.shortcuts, db, false);
    let q = BindingView { profile: quick_id(), keys: db.settings.quick_shortcut };
    let mid: Seq<BindingView> = if trim(q.keys).len() > 0 {
        seq![q]
    } else {
        Seq::empty()
    };
    assert(hotkeys(db) == lo + mid + hi);
    assert forall|i: int| 0 <= i < hotkeys(db).len() implies trim((#[trigger] hotkeys(db)[i]).keys).len()
        > 0 && (hotkeys(db)[i].profile == quick_id() || has_profile(
        db.profiles,
        hotkeys(db)[i].profile,
    )) by {
        if i < lo.len() {
            assert(hotkeys(db)[i] == lo[i]);
        } else if i < lo.len() + mid.len() {
            assert(hotkeys(db)[i] == mid[i - lo.len()]);
        } else {
            assert(hotkeys(db)[i] == hi[i - lo.len() - mid.len()]);
        }
    }
}

} // verus!
