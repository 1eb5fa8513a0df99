//! Profiles, headphones, settings and the database, with their validation.

use vstd::prelude::*;
use crate::decimal::{Decimal, UNIT};
use crate::text::{chars_of, is_space, lemma_trim_plain, trim, trimmed};

verus! {

// ---------------------------------------------------------------------------
// Types and their views
// ---------------------------------------------------------------------------
#[derive(Clone, Debug)]
pub struct Filter {
    pub id: String,
    pub kind: String,
    pub enabled: bool,
    pub frequency: Decimal,
    pub gain: Decimal,
    pub q: Decimal,
}

pub struct FilterView {
    pub id: Seq<char>,
    pub kind: Seq<char>,
    pub enabled: bool,
    pub frequency: int,
    pub gain: int,
    pub q: int,
}

impl View for Filter {
    type V = FilterView;

    open spec fn view(&self) -> FilterView {
        FilterView {
            id: self.id@,
            kind: self.kind@,
            enabled: self.enabled,
            frequency: self.frequency.units as int,
            gain: self.gain.units as int,
            q: self.q.units as int,
        }
    }
}

#[derive(Clone, Copy, Debug)]
pub struct Point {
    pub frequency: Decimal,
    pub gain: Decimal,
}

pub struct PointView {
    pub frequency: int,
    pub gain: int,
}

impl View for Point {
    type V = PointView;

    open spec fn view(&self) -> PointView {
        PointView { frequency: self.frequency.units as int, gain: self.gain.units as int }
    }
}

#[derive(Clone, Debug)]
pub struct Profile {
    pub schema_version: u32,
    pub id: String,
    pub name: String,
    pub icon: String,
    pub headphone_id: String,
    pub preamp: Decimal,
    pub filters: Vec<Filter>,
    pub graphic_eq: Vec<Point>,
    pub provenance: String,
}

pub struct ProfileView {
    pub schema_version: u32,
    pub id: Seq<char>,
    pub name: Seq<char>,
    pub icon: Seq<char>,
    pub headphone_id: Seq<char>,
    pub preamp: int,
    pub filters: Seq<FilterView>,
    pub graphic_eq: Seq<PointView>,
    pub provenance: Seq<char>,
}

pub open spec fn filter_views(v: Seq<Filter>) -> Seq<FilterView> {
    v.map_values(|f: Filter| f@)
}

pub open spec fn point_views(v: Seq<Point>) -> Seq<PointView> {
    v.map_values(|p: Point| p@)
}

impl View for Profile {
    type V = ProfileView;

    open spec fn view(&self) -> ProfileView {
        ProfileView {
            schema_version: self.schema_version,
            id: self.id@,
            name: self.name@,
            icon: self.icon@,
            headphone_id: self.headphone_id@,
            preamp: self.preamp.units as int,
            filters: filter_views(self.filters@),
            graphic_eq: point_views(self.graphic_eq@),
            provenance: self.provenance@,
        }
    }
}

#[derive(Clone, Debug)]
pub struct Headphone {
    pub id: String,
    pub name: String,
}

pub struct HeadphoneView {
    pub id: Seq<char>,
    pub name: Seq<char>,
}

impl View for Headphone {
    type V = HeadphoneView;

    open spec fn view(&self) -> HeadphoneView {
        HeadphoneView { id: self.id@, name: self.name@ }
    }
}

/// A hotkey binding: the profile it activates and its key combination.
#[derive(Clone, Debug)]
pub struct Binding {
    pub profile: String,
    pub keys: String,
}

pub struct BindingView {
    pub profile: Seq<char>,
    pub keys: Seq<char>,
}

impl View for Binding {
    type V = BindingView;

    open spec fn view(&self) -> BindingView {
        BindingView { profile: self.profile@, keys: self.keys@ }
    }
}

#[derive(Clone, Debug)]
pub struct Settings {
    pub agent_control: bool,
    pub start_with_windows: bool,
    pub start_in_tray: bool,
    pub restore_last_profile: bool,
    pub close_to_tray: bool,
    pub notifications: bool,
    /// Bindings by profile ID, in key order, each ID once
    /// (`bindings_ordered`).
    pub shortcuts: Vec<Binding>,
    pub quick_shortcut: String,
}

pub struct SettingsView {
    pub agent_control: bool,
    pub start_with_windows: bool,
    pub start_in_tray: bool,
    pub restore_last_profile: bool,
    pub close_to_tray: bool,
    pub notifications: bool,
    pub shortcuts: Seq<BindingView>,
    pub quick_shortcut: Seq<char>,
}

/// Texts in the order of `String` keys in a `BTreeMap`: by code point,
/// a prefix first.
pub open spec fn text_less(a: Seq<char>, b: Seq<char>) -> bool
    decreases a.len(),
{
    if a.len() == 0 {
        b.len() > 0
    } else if b.len() == 0 {
        false
    } else if a[0] != b[0] {
        (a[0] as u32) < (b[0] as u32)
    } else {
        text_less(a.drop_first(), b.drop_first())
    }
}

/// Hotkey bindings as a map from profile IDs holds them: in key order, each
/// profile ID once.
pub open spec fn bindings_ordered(bs: Seq<BindingView>) -> bool {
    forall|i: int, j: int|
        #![trigger bs[i], bs[j]]
        0 <= i < j < bs.len() ==> text_less(bs[i].profile, bs[j].profile) && bs[i].profile
            != bs[j].profile
}

pub open spec fn binding_views(v: Seq<Binding>) -> Seq<BindingView> {
    v.map_values(|b: Binding| b@)
}

impl View for Settings {
    type V = SettingsView;

    open spec fn view(&self) -> SettingsView {
        SettingsView {
            agent_control: self.agent_control,
            start_with_windows: self.start_with_windows,
            start_in_tray: self.start_in_tray,
            restore_last_profile: self.restore_last_profile,
            close_to_tray: self.close_to_tray,
            notifications: self.notifications,
            shortcuts: binding_views(self.shortcuts@),
            quick_shortcut: self.quick_shortcut@,
        }
    }
}

#[derive(Clone, Debug)]
pub struct Integration {
    pub installed: bool,
    pub config_dir: String,
    pub device_id: String,
    pub backup_dir: Option<String>,
    pub expected_root: String,
    pub expected_active: String,
    pub audio_verified: bool,
}

pub struct IntegrationView {
    pub installed: bool,
    pub config_dir: Seq<char>,
    pub device_id: Seq<char>,
    pub backup_dir: Option<Seq<char>>,
    pub expected_root: Seq<char>,
    pub expected_active: Seq<char>,
    pub audio_verified: bool,
}

pub open spec fn opt_view(o: Option<String>) -> Option<Seq<char>> {
    match o {
        Some(s) => Some(s@),
        None => None,
    }
}

impl View for Integration {
    type V = IntegrationView;

    open spec fn view(&self) -> IntegrationView {
        IntegrationView {
            installed: self.installed,
            config_dir: self.config_dir@,
            device_id: self.device_id@,
            backup_dir: opt_view(self.backup_dir),
            expected_root: self.expected_root@,
            expected_active: self.expected_active@,
            audio_verified: self.audio_verified,
        }
    }
}

#[derive(Clone, Debug)]
pub struct Database {
    pub schema_version: u32,
    pub profiles: Vec<Profile>,
    pub headphones: Vec<Headphone>,
    pub selected_headphone: String,
    pub active_profile: String,
    pub last_enabled: String,
    pub settings: Settings,
    pub integration: Integration,
}

pub struct DatabaseView {
    pub schema_version: u32,
    pub profiles: Seq<ProfileView>,
    pub headphones: Seq<HeadphoneView>,
    pub selected_headphone: Seq<char>,
    pub active_profile: Seq<char>,
    pub last_enabled: Seq<char>,
    pub settings: SettingsView,
    pub integration: IntegrationView,
}

pub open spec fn profile_views(v: Seq<Profile>) -> Seq<ProfileView> {
    v.map_values(|p: Profile| p@)
}

pub open spec fn headphone_views(v: Seq<Headphone>) -> Seq<HeadphoneView> {
    v.map_values(|h: Headphone| h@)
}

impl View for Database {
    type V = DatabaseView;

    open spec fn view(&self) -> DatabaseView {
        DatabaseView {
            schema_version: self.schema_version,
            profiles: profile_views(self.profiles@),
            headphones: headphone_views(self.headphones@),
            selected_headphone: self.selected_headphone@,
            active_profile: self.active_profile@,
            last_enabled: self.last_enabled@,
            settings: self.settings@,
            integration: self.integration@,
        }
    }
}

// ---------------------------------------------------------------------------
// Copies that keep the view
// ---------------------------------------------------------------------------
impl Filter {
    pub fn copied(&self) -> (r: Filter)
        ensures
            r@ == self@,
    {
        Filter {
            id: self.id.clone(),
            kind: self.kind.clone(),
            enabled: self.enabled,
            frequency: self.frequency,
            gain: self.gain,
            q: self.q,
        }
    }
}

impl Profile {
    pub fn copied(&self) -> (r: Profile)
        ensures
            r@ == self@,
    {
        let mut filters: Vec<Filter> = Vec::new();
        let mut i: usize = 0;
        while i < self.filters.len()
            invariant
                i <= self.filters.len(),
                filters@.len() == i,
                forall|k: int| 0 <= k < i ==> (#[trigger] filters@[k])@ == self.filters@[k]@,
            decreases self.filters.len() - i,
        {
            filters.push(self.filters[i].copied());
            i += 1;
        }
        let mut points: Vec<Point> = Vec::new();
        let mut j: usize = 0;
        while j < self.graphic_eq.len()
            invariant
                j <= self.graphic_eq.len(),
                points@.len() == j,
                forall|k: int| 0 <= k < j ==> (#[trigger] points@[k])@ == self.graphic_eq@[k]@,
            decreases self.graphic_eq.len() - j,
        {
            points.push(self.graphic_eq[j]);
            j += 1;
        }
        assert(filter_views(filters@) =~= filter_views(self.filters@)) by {
            assert forall|k: int| 0 <= k < filters@.len() implies #[trigger] filter_views(filters@)[k] == filter_views(self.filters@)[k] by {}
        }
        assert(point_views(points@) =~= point_views(self.graphic_eq@)) by {
            assert forall|k: int| 0 <= k < points@.len() implies #[trigger] point_views(points@)[k] == point_views(self.graphic_eq@)[k] by {}
        }
        Profile {
            schema_version: self.schema_version,
            id: self.id.clone(),
            name: self.name.clone(),
            icon: self.icon.clone(),
            headphone_id: self.headphone_id.clone(),
            preamp: self.preamp,
            filters,
            graphic_eq: points,
            provenance: self.provenance.clone(),
        }
    }
}

impl Headphone {
    pub fn copied(&self) -> (r: Headphone)
        ensures
            r@ == self@,
    {
        Headphone { id: self.id.clone(), name: self.name.clone() }
    }
}

impl Settings {
    pub fn copied(&self) -> (r: Settings)
        ensures
            r@ == self@,
    {
        let mut shortcuts: Vec<Binding> = Vec::new();
        let mut i: usize = 0;
        while i < self.shortcuts.len()
            invariant
                i <= self.shortcuts.len(),
                shortcuts@.len() == i,
                forall|k: int| 0 <= k < i ==> (#[trigger] shortcuts@[k])@ == self.shortcuts@[k]@,
            decreases self.shortcuts.len() - i,
        {
            let b = &self.shortcuts[i];
            shortcuts.push(Binding { profile: b.profile.clone(), keys: b.keys.clone() });
            i += 1;
        }
        assert(binding_views(shortcuts@) =~= binding_views(self.shortcuts@)) by {
            assert forall|k: int| 0 <= k < shortcuts@.len() implies #[trigger] binding_views(shortcuts@)[k] == binding_views(self.shortcuts@)[k] by {}
        }
        Settings {
            agent_control: self.agent_control,
            start_with_windows: self.start_with_windows,
            start_in_tray: self.start_in_tray,
            restore_last_profile: self.restore_last_profile,
            close_to_tray: self.close_to_tray,
            notifications: self.notifications,
            shortcuts,
            quick_shortcut: self.quick_shortcut.clone(),
        }
    }
}

impl Integration {
    pub fn copied(&self) -> (r: Integration)
        ensures
            r@ == self@,
    {
        Integration {
            installed: self.installed,
            config_dir: self.config_dir.clone(),
            device_id: self.device_id.clone(),
            backup_dir: match &self.backup_dir {
                Some(b) => Some(b.clone()),
                None => None,
            },
            expected_root: self.expected_root.clone(),
            expected_active: self.expected_active.clone(),
            audio_verified: self.audio_verified,
        }
    }
}

pub fn copy_profiles(v: &Vec<Profile>) -> (r: Vec<Profile>)
    ensures
        profile_views(r@) == profile_views(v@),
{
    let mut r: Vec<Profile> = Vec::new();
    let mut i: usize = 0;
    while i < v.len()
        invariant
            i <= v.len(),
            r@.len() == i,
                forall|k: int| 0 <= k < i ==> (#[trigger] r@[k])@ == v@[k]@,
        decreases v.len() - i,
    {
        r.push(v[i].copied());
        i += 1;
    }
    assert(profile_views(r@) =~= profile_views(v@)) by {
            assert forall|k: int| 0 <= k < r@.len() implies #[trigger] profile_views(r@)[k] == profile_views(v@)[k] by {}
        }
    r
}

pub fn copy_headphones(v: &Vec<Headphone>) -> (r: Vec<Headphone>)
    ensures
        headphone_views(r@) == headphone_views(v@),
{
    let mut r: Vec<Headphone> = Vec::new();
    let mut i: usize = 0;
    while i < v.len()
        invariant
            i <= v.len(),
            r@.len() == i,
                forall|k: int| 0 <= k < i ==> (#[trigger] r@[k])@ == v@[k]@,
        decreases v.len() - i,
    {
        r.push(v[i].copied());
        i += 1;
    }
    assert(headphone_views(r@) =~= headphone_views(v@)) by {
            assert forall|k: int| 0 <= k < r@.len() implies #[trigger] headphone_views(r@)[k] == headphone_views(v@)[k] by {}
        }
    r
}

impl Database {
    pub fn copied(&self) -> (r: Database)
        ensures
            r@ == self@,
    {
        Database {
            schema_version: self.schema_version,
            profiles: copy_profiles(&self.profiles),
            headphones: copy_headphones(&self.headphones),
            selected_headphone: self.selected_headphone.clone(),
            active_profile: self.active_profile.clone(),
            last_enabled: self.last_enabled.clone(),
            settings: self.settings.copied(),
            integration: self.integration.copied(),
        }
    }
}

// ---------------------------------------------------------------------------
// Constants of the format
// ---------------------------------------------------------------------------
pub open spec fn stock_id() -> Seq<char> {
    seq!['s', 't', 'o', 'c', 'k']
}

pub open spec fn kind_pk() -> Seq<char> {
    seq!['P', 'K']
}

pub open spec fn kind_lsc() -> Seq<char> {
    seq!['L', 'S', 'C']
}

pub open spec fn kind_hsc() -> Seq<char> {
    seq!['H', 'S', 'C']
}

pub open spec fn kind_hpq() -> Seq<char> {
    seq!['H', 'P', 'Q']
}

pub open spec fn kind_lpq() -> Seq<char> {
    seq!['L', 'P', 'Q']
}

/// The filter types that a profile may hold.
pub open spec fn supported_kind(k: Seq<char>) -> bool {
    k == kind_pk() || k == kind_lsc() || k == kind_hsc() || k == kind_hpq() || k == kind_lpq()
}

/// Pass filters take no gain.
pub open spec fn is_pass_kind(k: Seq<char>) -> bool {
    k == kind_hpq() || k == kind_lpq()
}

pub open spec fn whole(n: int) -> int {
    n * UNIT
}

pub open spec fn within(v: int, lo: int, hi: int) -> bool {
    lo <= v <= hi
}

// ---------------------------------------------------------------------------
// Profile validation
// ---------------------------------------------------------------------------
pub open spec fn msg_version() -> Seq<char> {
    "Unsupported profile version"@
}

pub open spec fn msg_name() -> Seq<char> {
    "Profile name must contain 1–80 characters on one line"@
}

pub open spec fn msg_preamp() -> Seq<char> {
    "Preamp must be between −60 and +20 dB"@
}

pub open spec fn msg_size() -> Seq<char> {
    "Profile is too large (64 filters or 2048 graphic points maximum)"@
}

pub open spec fn msg_filter_ids() -> Seq<char> {
    "Filter IDs must be unique"@
}

pub open spec fn msg_kind(k: Seq<char>) -> Seq<char> {
    "Unsupported filter type: "@ + k
}

pub open spec fn msg_frequency() -> Seq<char> {
    "Frequency must be between 10 and 22000 Hz"@
}

pub open spec fn msg_gain() -> Seq<char> {
    "Gain must be between −30 and +30 dB"@
}

pub open spec fn msg_q() -> Seq<char> {
    "Q must be between 0.1 and 30"@
}

pub open spec fn msg_graphic() -> Seq<char> {
    "GraphicEQ points must have increasing frequencies (10–22000 Hz) and finite gains (−60 to +30 dB)"@
}

pub open spec fn msg_stock() -> Seq<char> {
    "Stock is always a true bypass"@
}

pub open spec fn name_ok(name: Seq<char>) -> bool {
    &&& trim(name).len() > 0
    &&& name.len() <= 80
    &&& !name.contains('\r')
    &&& !name.contains('\n')
}

pub open spec fn id_among(id: Seq<char>, fs: Seq<FilterView>) -> bool {
    exists|j: int| 0 <= j < fs.len() && (#[trigger] fs[j]).id == id
}

/// What is wrong with one filter, given the filters before it.
pub open spec fn filter_error(f: FilterView, earlier: Seq<FilterView>) -> Option<Seq<char>> {
    if id_among(f.id, earlier) {
        Some(msg_filter_ids())
    } else if !supported_kind(f.kind) {
        Some(msg_kind(f.kind))
    } else if !within(f.frequency, whole(10), whole(22000)) {
        Some(msg_frequency())
    } else if !within(f.gain, whole(-30), whole(30)) {
        Some(msg_gain())
    } else if !within(f.q, UNIT / 10, whole(30)) {
        Some(msg_q())
    } else {
        None
    }
}

/// The first filter problem, in filter order.
pub open spec fn filters_error(fs: Seq<FilterView>) -> Option<Seq<char>>
    decreases fs.len(),
{
    if fs.len() == 0 {
        None
    } else {
        match filters_error(fs.drop_last()) {
            Some(m) => Some(m),
            None => filter_error(fs.last(), fs.drop_last()),
        }
    }
}

/// Frequency of the point before the last one of `ps`, or 0.
pub open spec fn previous_frequency(ps: Seq<PointView>) -> int {
    if ps.len() >= 2 {
        ps[ps.len() - 2].frequency
    } else {
        0
    }
}

pub open spec fn point_ok(p: PointView, last: int) -> bool {
    &&& within(p.frequency, whole(10), whole(22000))
    &&& p.frequency > last
    &&& within(p.gain, whole(-60), whole(30))
}

/// Whether the graphic points ascend in frequency and stay in range.
pub open spec fn points_ok(ps: Seq<PointView>) -> bool
    decreases ps.len(),
{
    ps.len() == 0 || (points_ok(ps.drop_last()) && point_ok(ps.last(), previous_frequency(ps)))
}

/// The validation message for a profile, `None` when it is valid; checks
/// come in this order and the first failure is reported.
pub open spec fn profile_error(p: ProfileView) -> Option<Seq<char>> {
    if p.schema_version != 1 {
        Some(msg_version())
    } else if !name_ok(p.name) {
        Some(msg_name())
    } else if !within(p.preamp, whole(-60), whole(20)) {
        Some(msg_preamp())
    } else if p.filters.len() > 64 || p.graphic_eq.len() > 2048 {
        Some(msg_size())
    } else if filters_error(p.filters) is Some {
        filters_error(p.filters)
    } else if !points_ok(p.graphic_eq) {
        Some(msg_graphic())
    } else if p.id == stock_id() && (p.preamp != 0 || p.filters.len() > 0 || p.graphic_eq.len()
        > 0) {
        Some(msg_stock())
    } else {
        None
    }
}

pub open spec fn as_result(e: Option<Seq<char>>) -> Result<(), Seq<char>> {
    match e {
        Some(m) => Err(m),
        None => Ok(()),
    }
}

pub open spec fn result_view(r: Result<(), String>) -> Result<(), Seq<char>> {
    match r {
        Ok(()) => Ok(()),
        Err(m) => Err(m@),
    }
}

pub fn text(s: &str) -> (r: String)
    ensures
        r@ == s@,
{
    s.to_owned()
}

/// Whether a string equals the given characters.
pub fn is_chars(s: &String, w: &[char]) -> (r: bool)
    ensures
        r == (s@ == w@),
{
    let v = chars_of(s.as_str());
    if v.len() != w.len() {
        return false;
    }
    let mut i: usize = 0;
    while i < v.len()
        invariant
            v.len() == w.len(),
            v@ == s@,
            i <= v.len(),
            forall|j: int| 0 <= j < i ==> v@[j] == w@[j],
        decreases v.len() - i,
    {
        if v[i] != w[i] {
            return false;
        }
        i += 1;
    }
    assert(v@ =~= w@);
    true
}

pub fn is_stock(s: &String) -> (r: bool)
    ensures
        r == (s@ == stock_id()),
{
    let r = is_chars(s, &['s', 't', 'o', 'c', 'k']);
    assert(['s', 't', 'o', 'c', 'k']@ =~= stock_id());
    r
}

pub fn kind_supported(k: &String) -> (r: bool)
    ensures
        r == supported_kind(k@),
{
    let r = is_chars(k, &['P', 'K']) || is_chars(k, &['L', 'S', 'C']) || is_chars(k, &['H', 'S', 'C'])
        || is_chars(k, &['H', 'P', 'Q']) || is_chars(k, &['L', 'P', 'Q']);
    assert(['P', 'K']@ =~= kind_pk());
    assert(['L', 'S', 'C']@ =~= kind_lsc());
    assert(['H', 'S', 'C']@ =~= kind_hsc());
    assert(['H', 'P', 'Q']@ =~= kind_hpq());
    assert(['L', 'P', 'Q']@ =~= kind_lpq());
    r
}

pub fn kind_is_pass(k: &String) -> (r: bool)
    ensures
        r == is_pass_kind(k@),
{
    let r = is_chars(k, &['H', 'P', 'Q']) || is_chars(k, &['L', 'P', 'Q']);
    assert(['H', 'P', 'Q']@ =~= kind_hpq());
    assert(['L', 'P', 'Q']@ =~= kind_lpq());
    r
}

fn name_valid(name: &String) -> (r: bool)
    ensures
        r == name_ok(name@),
{
    let v = chars_of(name.as_str());
    let t = trimmed(&v, 0, v.len());
    assert(v@.subrange(0, v@.len() as int) =~= v@);
    if t.len() == 0 || v.len() > 80 {
        return false;
    }
    let mut i: usize = 0;
    while i < v.len()
        invariant
            v@ == name@,
            i <= v.len(),
            forall|j: int| 0 <= j < i ==> v@[j] != '\r' && v@[j] != '\n',
        decreases v.len() - i,
    {
        if v[i] == '\r' || v[i] == '\n' {
            assert(v@[i as int] == '\r' ==> name@.contains('\r'));
            assert(v@[i as int] == '\n' ==> name@.contains('\n'));
            return false;
        }
        i += 1;
    }
    true
}

fn filter_check(fs: &Vec<Filter>, i: usize) -> (r: Option<String>)
    requires
        i < fs.len(),
    ensures
        opt_view(r) == filter_error(fs@[i as int]@, filter_views(fs@).take(i as int)),
{
    let f = &fs[i];
    let ghost earlier = filter_views(fs@).take(i as int);
    let mut j: usize = 0;
    while j < i
        invariant
            i < fs.len(),
            j <= i,
            f == fs@[i as int],
            earlier == filter_views(fs@).take(i as int),
            forall|x: int| 0 <= x < j ==> (#[trigger] earlier[x]).id != f.id@,
        decreases i - j,
    {
        if fs[j].id == f.id {
            assert(earlier[j as int].id == f.id@);
            return Some(text("Filter IDs must be unique"));
        }
        j += 1;
    }
    if !kind_supported(&f.kind) {
        let mut m = text("Unsupported filter type: ");
        m.append(f.kind.as_str());
        return Some(m);
    }
    if !(10 * UNIT <= f.frequency.units && f.frequency.units <= 22000 * UNIT) {
        return Some(text("Frequency must be between 10 and 22000 Hz"));
    }
    if !(-30 * UNIT <= f.gain.units && f.gain.units <= 30 * UNIT) {
        return Some(text("Gain must be between −30 and +30 dB"));
    }
    if !(UNIT / 10 <= f.q.units && f.q.units <= 30 * UNIT) {
        return Some(text("Q must be between 0.1 and 30"));
    }
    None
}

fn points_valid(ps: &Vec<Point>) -> (r: bool)
    ensures
        r == points_ok(point_views(ps@)),
{
    let mut last: i128 = 0;
    let mut i: usize = 0;
    let ghost pv = point_views(ps@);
    assert(pv.take(0) =~= Seq::<PointView>::empty());
    while i < ps.len()
        invariant
            i <= ps.len(),
            pv == point_views(ps@),
            points_ok(pv.take(i as int)),
            last == (if i == 0 {
                0
            } else {
                pv[i - 1].frequency
            }),
        decreases ps.len() - i,
    {
        let p = ps[i];
        proof {
            let t = pv.take(i + 1);
            assert(t.drop_last() =~= pv.take(i as int));
            assert(t.last() == p@);
            assert(previous_frequency(t) == last);
        }
        if !(10 * UNIT <= p.frequency.units && p.frequency.units <= 22000 * UNIT)
            || p.frequency.units <= last || !(-60 * UNIT <= p.gain.units && p.gain.units <= 30
            * UNIT) {
            proof {
                lemma_points_ok_prefix(pv, i + 1);
            }
            return false;
        }
        last = p.frequency.units;
        i += 1;
    }
    assert(pv.take(ps.len() as int) =~= pv);
    true
}

pub proof fn lemma_points_ok_prefix(ps: Seq<PointView>, n: int)
    requires
        0 <= n <= ps.len(),
        !points_ok(ps.take(n)),
    ensures
        !points_ok(ps),
    decreases ps.len() - n,
{
    if n < ps.len() {
        let t = ps.take(n + 1);
        assert(t.drop_last() =~= ps.take(n));
        assert(!points_ok(t));
        lemma_points_ok_prefix(ps, n + 1);
    } else {
        assert(ps.take(n) =~= ps);
    }
}

pub proof fn lemma_filters_error_prefix(fs: Seq<FilterView>, n: int)
    requires
        0 <= n <= fs.len(),
        filters_error(fs.take(n)) is Some,
    ensures
        filters_error(fs) == filters_error(fs.take(n)),
    decreases fs.len() - n,
{
    if n < fs.len() {
        let t = fs.take(n + 1);
        assert(t.drop_last() =~= fs.take(n));
        lemma_filters_error_prefix(fs, n + 1);
    } else {
        assert(fs.take(n) =~= fs);
    }
}

/// Checks a profile; the message of the first rule it breaks.
pub fn validate_profile(p: &Profile) -> (r: Result<(), String>)
    ensures
        result_view(r) == as_result(profile_error(p@)),
{
    if p.schema_version != 1 {
        return Err(text("Unsupported profile version"));
    }
    if !name_valid(&p.name) {
        return Err(text("Profile name must contain 1–80 characters on one line"));
    }
    if !(-60 * UNIT <= p.preamp.units && p.preamp.units <= 20 * UNIT) {
        return Err(text("Preamp must be between −60 and +20 dB"));
    }
    if p.filters.len() > 64 || p.graphic_eq.len() > 2048 {
        return Err(text("Profile is too large (64 filters or 2048 graphic points maximum)"));
    }
    let ghost fv = filter_views(p.filters@);
    let mut i: usize = 0;
    assert(fv.take(0) =~= Seq::<FilterView>::empty());
    while i < p.filters.len()
        invariant
            i <= p.filters.len(),
            fv == filter_views(p.filters@),
            filters_error(fv.take(i as int)) is None,
            p.schema_version == 1,
            name_ok(p@.name),
            within(p@.preamp, whole(-60), whole(20)),
            !(p@.filters.len() > 64 || p@.graphic_eq.len() > 2048),
        decreases p.filters.len() - i,
    {
        let e = filter_check(&p.filters, i);
        proof {
            let t = fv.take(i + 1);
            assert(t.drop_last() =~= fv.take(i as int));
            assert(t.last() == p.filters@[i as int]@);
        }
        match e {
            Some(m) => {
                proof {
                    let t = fv.take(i + 1);
                    assert(filters_error(t) == Some(m@));
                    lemma_filters_error_prefix(fv, i + 1);
                    assert(filters_error(fv) == Some(m@));
                    assert(p@.filters == fv);
                }
                return Err(m);
            },
            None => {},
        }
        i += 1;
    }
    assert(fv.take(p.filters.len() as int) =~= fv);
    if !points_valid(&p.graphic_eq) {
        return Err(
            text(
                "GraphicEQ points must have increasing frequencies (10–22000 Hz) and finite gains (−60 to +30 dB)",
            ),
        );
    }
    if is_stock(&p.id) && (p.preamp.units != 0 || p.filters.len() > 0 || p.graphic_eq.len() > 0) {
        return Err(text("Stock is always a true bypass"));
    }
    Ok(())
}


// ---------------------------------------------------------------------------
// Database validation
// ---------------------------------------------------------------------------
pub open spec fn has_profile(ps: Seq<ProfileView>, id: Seq<char>) -> bool {
    exists|i: int| 0 <= i < ps.len() && (#[trigger] ps[i]).id == id
}

pub open spec fn has_headphone(hs: Seq<HeadphoneView>, id: Seq<char>) -> bool {
    exists|i: int| 0 <= i < hs.len() && (#[trigger] hs[i]).id == id
}

pub open spec fn msg_db_version() -> Seq<char> {
    "Unsupported database version; your data has been preserved"@
}

pub open spec fn msg_duplicate_profile() -> Seq<char> {
    "Duplicate profile ID"@
}

pub open spec fn msg_missing_headphone() -> Seq<char> {
    "Profile refers to a missing headphone"@
}

pub open spec fn msg_missing_profiles() -> Seq<char> {
    "Missing stock, active, or last-enabled profile"@
}

pub open spec fn msg_missing_selected() -> Seq<char> {
    "Missing selected headphone"@
}

/// What is wrong with one profile of a database, given those before it.
pub open spec fn entry_error(
    p: ProfileView,
    earlier: Seq<ProfileView>,
    hs: Seq<HeadphoneView>,
) -> Option<Seq<char>> {
    if profile_error(p) is Some {
        profile_error(p)
    } else if has_profile(earlier, p.id) {
        Some(msg_duplicate_profile())
    } else if !has_headphone(hs, p.headphone_id) {
        Some(msg_missing_headphone())
    } else {
        None
    }
}

/// The first problem among the profiles, in order.
pub open spec fn entries_error(ps: Seq<ProfileView>, hs: Seq<HeadphoneView>) -> Option<Seq<char>>
    decreases ps.len(),
{
    if ps.len() == 0 {
        None
    } else {
        match entries_error(ps.drop_last(), hs) {
            Some(m) => Some(m),
            None => entry_error(ps.last(), ps.drop_last(), hs),
        }
    }
}

/// The validation message for a database, `None` when it is valid.
pub open spec fn database_error(db: DatabaseView) -> Option<Seq<char>> {
    if db.schema_version != 1 {
        Some(msg_db_version())
    } else if entries_error(db.profiles, db.headphones) is Some {
        entries_error(db.profiles, db.headphones)
    } else if !has_profile(db.profiles, stock_id()) || !has_profile(db.profiles, db.active_profile)
        || !has_profile(db.profiles, db.last_enabled) || db.last_enabled == stock_id() {
        Some(msg_missing_profiles())
    } else if !has_headphone(db.headphones, db.selected_headphone) {
        Some(msg_missing_selected())
    } else {
        None
    }
}

pub open spec fn database_valid(db: DatabaseView) -> bool {
    database_error(db) is None
}

/// Index of the profile with this ID.
pub fn find_profile(ps: &Vec<Profile>, id: &String) -> (r: Option<usize>)
    ensures
        r is Some == has_profile(profile_views(ps@), id@),
        r matches Some(i) ==> i < ps.len() && ps@[i as int].id@ == id@ && forall|j: int|
            0 <= j < i ==> (#[trigger] ps@[j]).id@ != id@,
{
    let mut i: usize = 0;
    while i < ps.len()
        invariant
            i <= ps.len(),
            forall|j: int| 0 <= j < i ==> (#[trigger] ps@[j]).id@ != id@,
        decreases ps.len() - i,
    {
        if ps[i].id == *id {
            assert(profile_views(ps@)[i as int].id == id@);
            return Some(i);
        }
        i += 1;
    }
    assert(!has_profile(profile_views(ps@), id@)) by {
        if has_profile(profile_views(ps@), id@) {
            let k = choose|k: int| 0 <= k < ps.len() && (#[trigger] profile_views(ps@)[k]).id == id@;
            assert(ps@[k].id@ == id@);
        }
    }
    None
}

/// Whether a headphone with this ID exists.
pub fn headphone_exists(hs: &Vec<Headphone>, id: &String) -> (r: bool)
    ensures
        r == has_headphone(headphone_views(hs@), id@),
{
    let mut i: usize = 0;
    while i < hs.len()
        invariant
            i <= hs.len(),
            forall|j: int| 0 <= j < i ==> (#[trigger] hs@[j]).id@ != id@,
        decreases hs.len() - i,
    {
        if hs[i].id == *id {
            assert(headphone_views(hs@)[i as int].id == id@);
            return true;
        }
        i += 1;
    }
    assert(!has_headphone(headphone_views(hs@), id@)) by {
        if has_headphone(headphone_views(hs@), id@) {
            let k = choose|k: int| 0 <= k < hs.len() && (#[trigger] headphone_views(hs@)[k]).id == id@;
            assert(hs@[k].id@ == id@);
        }
    }
    false
}

pub proof fn lemma_entries_error_prefix(ps: Seq<ProfileView>, hs: Seq<HeadphoneView>, n: int)
    requires
        0 <= n <= ps.len(),
        entries_error(ps.take(n), hs) is Some,
    ensures
        entries_error(ps, hs) == entries_error(ps.take(n), hs),
    decreases ps.len() - n,
{
    if n < ps.len() {
        let t = ps.take(n + 1);
        assert(t.drop_last() =~= ps.take(n));
        lemma_entries_error_prefix(ps, hs, n + 1);
    } else {
        assert(ps.take(n) =~= ps);
    }
}

fn entry_check(ps: &Vec<Profile>, i: usize, hs: &Vec<Headphone>) -> (r: Result<(), String>)
    requires
        i < ps.len(),
    ensures
        result_view(r) == as_result(
            entry_error(ps@[i as int]@, profile_views(ps@).take(i as int), headphone_views(hs@)),
        ),
{
    let p = &ps[i];
    validate_profile(p)?;
    let ghost earlier = profile_views(ps@).take(i as int);
    let mut j: usize = 0;
    while j < i
        invariant
            i < ps.len(),
            j <= i,
            earlier == profile_views(ps@).take(i as int),
            p == ps@[i as int],
            profile_error(p@) is None,
            forall|x: int| 0 <= x < j ==> (#[trigger] earlier[x]).id != p.id@,
        decreases i - j,
    {
        if ps[j].id == p.id {
            assert(earlier[j as int].id == p.id@);
            return Err(text("Duplicate profile ID"));
        }
        j += 1;
    }
    if !headphone_exists(hs, &p.headphone_id) {
        return Err(text("Profile refers to a missing headphone"));
    }
    Ok(())
}

/// Checks a database; the message of the first rule it breaks.
pub fn validate_database(db: &Database) -> (r: Result<(), String>)
    ensures
        result_view(r) == as_result(database_error(db@)),
{
    if db.schema_version != 1 {
        return Err(text("Unsupported database version; your data has been preserved"));
    }
    let ghost pv = profile_views(db.profiles@);
    let ghost hv = headphone_views(db.headphones@);
    let mut i: usize = 0;
    assert(pv.take(0) =~= Seq::<ProfileView>::empty());
    while i < db.profiles.len()
        invariant
            i <= db.profiles.len(),
            pv == profile_views(db.profiles@),
            hv == headphone_views(db.headphones@),
            entries_error(pv.take(i as int), hv) is None,
            db.schema_version == 1,
        decreases db.profiles.len() - i,
    {
        let e = entry_check(&db.profiles, i, &db.headphones);
        proof {
            let t = pv.take(i + 1);
            assert(t.drop_last() =~= pv.take(i as int));
            assert(t.last() == db.profiles@[i as int]@);
        }
        match e {
            Err(m) => {
                proof {
                    lemma_entries_error_prefix(pv, hv, i + 1);
                }
                return Err(m);
            },
            Ok(()) => {},
        }
        i += 1;
    }
    assert(pv.take(db.profiles.len() as int) =~= pv);
    let stock = text("stock");
    proof {
        reveal_strlit("stock");
        assert(stock@ =~= stock_id());
    }
    if find_profile(&db.profiles, &stock).is_none() || find_profile(
        &db.profiles,
        &db.active_profile,
    ).is_none() || find_profile(&db.profiles, &db.last_enabled).is_none() || is_stock(
        &db.last_enabled,
    ) {
        return Err(text("Missing stock, active, or last-enabled profile"));
    }
    if !headphone_exists(&db.headphones, &db.selected_headphone) {
        return Err(text("Missing selected headphone"));
    }
    Ok(())
}

// ---------------------------------------------------------------------------
// Defaults
// ---------------------------------------------------------------------------
/// Agents may use the native tools unless the user turns them off.
pub fn agent_default() -> (r: bool)
    ensures
        r,
{
    true
}

pub open spec fn binding(profile: Seq<char>, keys: Seq<char>) -> BindingView {
    BindingView { profile, keys }
}

/// The preferences of a fresh installation: everything on, and
/// `Ctrl+Alt+<n>` for the bundled profiles (`0` for Stock).
pub open spec fn default_settings() -> SettingsView {
    SettingsView {
        agent_control: true,
        start_with_windows: true,
        start_in_tray: true,
        restore_last_profile: true,
        close_to_tray: true,
        notifications: true,
        shortcuts: seq![
            binding("fps"@, "Ctrl+Alt+4"@),
            binding("gaming"@, "Ctrl+Alt+3"@),
            binding("movies"@, "Ctrl+Alt+2"@),
            binding("music"@, "Ctrl+Alt+1"@),
            binding("stock"@, "Ctrl+Alt+0"@),
            binding("voice"@, "Ctrl+Alt+5"@),
        ],
        quick_shortcut: "Ctrl+Alt+E"@,
    }
}

/// The bundled hotkeys are held in key order, each profile once.
pub proof fn default_bindings_ordered()
    ensures
        bindings_ordered(default_settings().shortcuts),
{
    reveal_strlit("fps");
    reveal_strlit("gaming");
    reveal_strlit("movies");
    reveal_strlit("music");
    reveal_strlit("stock");
    reveal_strlit("voice");
    let bs = default_settings().shortcuts;
    reveal_with_fuel(text_less, 3);
    assert(text_less("movies"@.drop_first(), "music"@.drop_first()));
    assert forall|i: int, j: int|
        #![trigger bs[i], bs[j]]
        0 <= i < j < bs.len() implies text_less(bs[i].profile, bs[j].profile) && bs[i].profile
            != bs[j].profile by {
        assert(bs[i].profile[0] != bs[j].profile[0] || (i == 2 && j == 3));
    }
    assert(bindings_ordered(bs));
}

impl Default for Settings {
    fn default() -> (r: Settings)
        ensures
            r@ == default_settings(),
            bindings_ordered(r@.shortcuts),
    {
        let shortcuts = vec![
            Binding { profile: text("fps"), keys: text("Ctrl+Alt+4") },
            Binding { profile: text("gaming"), keys: text("Ctrl+Alt+3") },
            Binding { profile: text("movies"), keys: text("Ctrl+Alt+2") },
            Binding { profile: text("music"), keys: text("Ctrl+Alt+1") },
            Binding { profile: text("stock"), keys: text("Ctrl+Alt+0") },
            Binding { profile: text("voice"), keys: text("Ctrl+Alt+5") },
        ];
        let r = Settings {
            agent_control: agent_default(),
            start_with_windows: true,
            start_in_tray: true,
            restore_last_profile: true,
            close_to_tray: true,
            notifications: true,
            shortcuts,
            quick_shortcut: text("Ctrl+Alt+E"),
        };
        assert(r@.shortcuts =~= default_settings().shortcuts);
        proof {
            default_bindings_ordered();
        }
        r
    }
}

pub open spec fn default_integration() -> IntegrationView {
    IntegrationView {
        installed: false,
        config_dir: "C:\\Program Files\\EqualizerAPO\\config"@,
        device_id: Seq::empty(),
        backup_dir: None,
        expected_root: Seq::empty(),
        expected_active: Seq::empty(),
        audio_verified: false,
    }
}

pub fn default_integration_value() -> (r: Integration)
    ensures
        r@ == default_integration(),
{
    let r = Integration {
        installed: false,
        config_dir: text("C:\\Program Files\\EqualizerAPO\\config"),
        device_id: String::new(),
        backup_dir: None,
        expected_root: String::new(),
        expected_active: String::new(),
        audio_verified: false,
    };
    assert(r@ =~= default_integration());
    r
}


/// `(a + b) / 2`, rounded toward zero.
pub open spec fn midpoint(a: int, b: int) -> int {
    if a + b >= 0 {
        (a + b) / 2
    } else {
        -((-(a + b)) / 2)
    }
}

/// A bundled preset as a profile: its own ID and icon.
pub open spec fn bundled(p: ProfileView, id: Seq<char>, icon: Seq<char>) -> ProfileView {
    ProfileView { id, icon, ..p }
}

/// Gaming: the Music profile with each gain the midpoint of the Music and
/// Movies gains at the same position, and a −7 dB preamp.
pub open spec fn gaming_of(music: ProfileView, movies: ProfileView) -> ProfileView {
    ProfileView {
        id: "gaming"@,
        name: "Gaming"@,
        icon: "gamepad"@,
        preamp: -7 * UNIT,
        provenance: "App-created • Music/Movies gain midpoint, −7 dB preamp"@,
        filters: Seq::new(
            music.filters.len(),
            |i: int|
                if i < movies.filters.len() {
                    FilterView {
                        gain: midpoint(music.filters[i].gain, movies.filters[i].gain),
                        ..music.filters[i]
                    }
                } else {
                    music.filters[i]
                },
        ),
        ..music
    }
}

/// Stock: no filters and a 0 dB preamp.
pub open spec fn stock_profile() -> ProfileView {
    ProfileView {
        schema_version: 1,
        id: "stock"@,
        name: "Stock / EQ Off"@,
        icon: "power"@,
        headphone_id: "default"@,
        preamp: 0,
        filters: Seq::empty(),
        graphic_eq: Seq::empty(),
        provenance: "Unprocessed output • 0 dB preamp"@,
    }
}

/// The database of a fresh installation, from the four bundled profiles
/// (each already given its ID and icon).
pub open spec fn default_database(
    m: ProfileView,
    f: ProfileView,
    c: ProfileView,
    d: ProfileView,
) -> DatabaseView {
    DatabaseView {
        schema_version: 1,
        profiles: seq![m, f, gaming_of(m, f), c, d, stock_profile()],
        headphones: seq![HeadphoneView { id: "default"@, name: "My headphones"@ }],
        selected_headphone: "default"@,
        active_profile: "music"@,
        last_enabled: "music"@,
        settings: default_settings(),
        integration: default_integration(),
    }
}

pub open spec fn preset_read(t: &str, name: Seq<char>, source: Seq<char>, r: Result<ProfileView, Seq<char>>) -> bool {
    crate::apo::parse_outcome(t@, vstd::string::StringSliceAdditionalSpecFns::spec_bytes(t).len(), name, source, r)
}

fn midpoint_units(a: i128, b: i128) -> (r: i128)
    requires
        -whole(30) <= a <= whole(30),
        -whole(30) <= b <= whole(30),
    ensures
        r == midpoint(a as int, b as int),
{
    let s = a + b;
    if s >= 0 {
        s / 2
    } else {
        -((-s) / 2)
    }
}

fn gaming_profile(music: &Profile, movies: &Profile) -> (g: Profile)
    requires
        profile_error(music@) is None,
        profile_error(movies@) is None,
    ensures
        g@ == gaming_of(music@, movies@),
{
    proof {
        crate::apo::lemma_filters_ok(music@.filters);
        crate::apo::lemma_filters_ok(movies@.filters);
    }
    let mut g = music.copied();
    let mut i: usize = 0;
    let ghost mv = music@;
    let ghost fv = movies@;
    let ghost target = gaming_of(mv, fv).filters;
    while i < g.filters.len()
        invariant
            i <= g.filters.len(),
            g.filters.len() == mv.filters.len(),
            mv == music@,
            fv == movies@,
            target == gaming_of(mv, fv).filters,
            forall|k: int| 0 <= k < i ==> (#[trigger] g.filters@[k])@ == target[k],
            forall|k: int| i <= k < g.filters.len() ==> (#[trigger] g.filters@[k])@ == mv.filters[k],
            forall|k: int| 0 <= k < mv.filters.len() ==> filter_error(#[trigger] mv.filters[k], mv.filters.take(k)) is None,
            forall|k: int| 0 <= k < fv.filters.len() ==> filter_error(#[trigger] fv.filters[k], fv.filters.take(k)) is None,
            g@.schema_version == mv.schema_version,
            g@.id == mv.id,
            g@.name == mv.name,
            g@.icon == mv.icon,
            g@.headphone_id == mv.headphone_id,
            g@.preamp == mv.preamp,
            g@.graphic_eq == mv.graphic_eq,
            g@.provenance == mv.provenance,
        decreases g.filters.len() - i,
    {
        if i < movies.filters.len() {
            let a = g.filters[i].gain.units;
            let b = movies.filters[i].gain.units;
            assert(a == mv.filters[i as int].gain);
            assert(b == fv.filters[i as int].gain);
            let m = midpoint_units(a, b);
            let mut f = g.filters[i].copied();
            f.gain = Decimal { units: m };
            g.filters.set(i, f);
        }
        i += 1;
    }
    g.id = text("gaming");
    g.name = text("Gaming");
    g.icon = text("gamepad");
    g.preamp = Decimal { units: -7 * UNIT };
    g.provenance = text("App-created • Music/Movies gain midpoint, −7 dB preamp");
    assert(g@.filters =~= target);
    g
}

fn stock_value() -> (p: Profile)
    ensures
        p@ == stock_profile(),
{
    let p = Profile {
        schema_version: 1,
        id: text("stock"),
        name: text("Stock / EQ Off"),
        icon: text("power"),
        headphone_id: text("default"),
        preamp: Decimal::zero(),
        filters: Vec::new(),
        graphic_eq: Vec::new(),
        provenance: text("Unprocessed output • 0 dB preamp"),
    };
    assert(p@.filters =~= stock_profile().filters);
    assert(p@.graphic_eq =~= stock_profile().graphic_eq);
    p
}

fn bundled_preset(t: &str, name: &str, source: &str, id: &str, icon: &str) -> (r: Result<Profile, String>)
    ensures
        r matches Ok(p) ==> exists|q: ProfileView|
            preset_read(t, name@, source@, Ok::<ProfileView, Seq<char>>(q)) && p@ == bundled(q, id@, icon@)
                && profile_error(q) is None,
        r matches Err(m) ==> preset_read(t, name@, source@, Err::<ProfileView, Seq<char>>(m@)),
{
    let mut p = crate::apo::parse(t, name, source)?;
    let ghost q = p@;
    p.id = text(id);
    p.icon = text(icon);
    assert(p@ =~= bundled(q, id@, icon@));
    Ok(p)
}

fn assemble(m: Profile, f: Profile, c: Profile, d: Profile) -> (db: Database)
    requires
        profile_error(m@) is None,
        profile_error(f@) is None,
    ensures
        db@ == default_database(m@, f@, c@, d@),
{
    let g = gaming_profile(&m, &f);
    let ghost (mv, fv, cv, dv) = (m@, f@, c@, d@);
    let profiles = vec![m, f, g, c, d, stock_value()];
    let db = Database {
        schema_version: 1,
        profiles,
        headphones: vec![Headphone { id: text("default"), name: text("My headphones") }],
        selected_headphone: text("default"),
        active_profile: text("music"),
        last_enabled: text("music"),
        settings: Settings::default(),
        integration: default_integration_value(),
    };
    assert(db@.profiles =~= default_database(mv, fv, cv, dv).profiles);
    assert(db@.headphones =~= default_database(mv, fv, cv, dv).headphones);
    db
}

/// The database of a fresh installation, built from the four bundled
/// presets (Balanced Music, Movies, Competitive FPS, Voice): those four, a
/// Gaming profile between Music and Movies, and Stock; one headphone entry,
/// Music active, default settings, no integration. A preset that does not
/// read as a valid profile gives its message.
#[verifier::rlimit(40)]
pub fn defaults(music: &str, movies: &str, fps: &str, voice: &str) -> (r: Result<Database, String>)
    ensures
        r matches Ok(db) ==> exists|a: ProfileView, b: ProfileView, c: ProfileView, d: ProfileView|
            preset_read(music, "Balanced Music"@, "Ananda_Stealth_01_Balanced_Music.txt"@, Ok(a))
                && preset_read(movies, "Movies / Cinematic"@, "Ananda_Stealth_02_Movies_Fun.txt"@, Ok(b))
                && preset_read(fps, "Competitive FPS"@, "Ananda_Stealth_03_Competitive_FPS.txt"@, Ok(c))
                && preset_read(voice, "Voice / Discord"@, "Ananda_Stealth_04_Voice_Discord.txt"@, Ok(d))
                && db@ == default_database(
                    bundled(a, "music"@, "music"@),
                    bundled(b, "movies"@, "film"@),
                    bundled(c, "fps"@, "target"@),
                    bundled(d, "voice"@, "mic"@),
                ),
        r matches Ok(db) ==> database_valid(db@),
        r matches Err(m) ==> preset_read(music, "Balanced Music"@, "Ananda_Stealth_01_Balanced_Music.txt"@, Err(m@))
            || preset_read(movies, "Movies / Cinematic"@, "Ananda_Stealth_02_Movies_Fun.txt"@, Err(m@))
            || preset_read(fps, "Competitive FPS"@, "Ananda_Stealth_03_Competitive_FPS.txt"@, Err(m@))
            || preset_read(voice, "Voice / Discord"@, "Ananda_Stealth_04_Voice_Discord.txt"@, Err(m@)),
{
    let m = bundled_preset(music, "Balanced Music", "Ananda_Stealth_01_Balanced_Music.txt", "music", "music")?;
    let ghost qa = choose|q: ProfileView| preset_read(music, "Balanced Music"@, "Ananda_Stealth_01_Balanced_Music.txt"@, Ok::<ProfileView, Seq<char>>(q)) && m@ == bundled(q, "music"@, "music"@) && profile_error(q) is None;
    let f = bundled_preset(movies, "Movies / Cinematic", "Ananda_Stealth_02_Movies_Fun.txt", "movies", "film")?;
    let ghost qb = choose|q: ProfileView| preset_read(movies, "Movies / Cinematic"@, "Ananda_Stealth_02_Movies_Fun.txt"@, Ok::<ProfileView, Seq<char>>(q)) && f@ == bundled(q, "movies"@, "film"@) && profile_error(q) is None;
    let c = bundled_preset(fps, "Competitive FPS", "Ananda_Stealth_03_Competitive_FPS.txt", "fps", "target")?;
    let ghost qc = choose|q: ProfileView| preset_read(fps, "Competitive FPS"@, "Ananda_Stealth_03_Competitive_FPS.txt"@, Ok::<ProfileView, Seq<char>>(q)) && c@ == bundled(q, "fps"@, "target"@) && profile_error(q) is None;
    let d = bundled_preset(voice, "Voice / Discord", "Ananda_Stealth_04_Voice_Discord.txt", "voice", "mic")?;
    let ghost qd = choose|q: ProfileView| preset_read(voice, "Voice / Discord"@, "Ananda_Stealth_04_Voice_Discord.txt"@, Ok::<ProfileView, Seq<char>>(q)) && d@ == bundled(q, "voice"@, "mic"@) && profile_error(q) is None;
    proof {
        reveal_strlit("music");
        reveal_strlit("movies");
        reveal_strlit("stock");
        lemma_bundled_valid(qa, "music"@, "music"@);
        lemma_bundled_valid(qb, "movies"@, "film"@);
    }
    proof {
        lemma_read_preset_default(music, "Balanced Music"@, "Ananda_Stealth_01_Balanced_Music.txt"@, qa);
        lemma_read_preset_default(movies, "Movies / Cinematic"@, "Ananda_Stealth_02_Movies_Fun.txt"@, qb);
        lemma_read_preset_default(fps, "Competitive FPS"@, "Ananda_Stealth_03_Competitive_FPS.txt"@, qc);
        lemma_read_preset_default(voice, "Voice / Discord"@, "Ananda_Stealth_04_Voice_Discord.txt"@, qd);
        defaults_are_valid(qa, qb, qc, qd);
    }
    let db = assemble(m, f, c, d);
    Ok(db)
}

/// A different ID and icon do not change whether a non-stock profile is valid.
proof fn lemma_bundled_valid(q: ProfileView, id: Seq<char>, icon: Seq<char>)
    requires
        profile_error(q) is None,
        id != stock_id(),
    ensures
        profile_error(bundled(q, id, icon)) is None,
{
}

/// Stock is always a true bypass: a valid profile with the Stock ID has a
/// 0 dB preamp, no filters and no GraphicEQ points.
pub proof fn stock_is_bypass(p: ProfileView)
    requires
        profile_error(p) is None,
        p.id == stock_id(),
    ensures
        p.preamp == 0,
        p.filters.len() == 0,
        p.graphic_eq.len() == 0,
{
}

/// A preset read as a profile is valid and belongs to the default
/// headphone.
proof fn lemma_read_preset_default(t: &str, name: Seq<char>, source: Seq<char>, q: ProfileView)
    requires
        preset_read(t, name, source, Ok(q)),
    ensures
        profile_error(q) is None,
        q.headphone_id == "default"@,
{
}

proof fn lemma_plain_name(n: Seq<char>)
    requires
        0 < n.len() <= 80,
        !is_space(n[0]),
        !is_space(n.last()),
        forall|i: int| 0 <= i < n.len() ==> #[trigger] n[i] != '\r' && n[i] != '\n',
    ensures
        name_ok(n),
{
    lemma_trim_plain(n);
}

/// The filter `g` is `f` with another gain.
pub open spec fn same_but_gain(g: FilterView, f: FilterView) -> bool {
    g == FilterView { gain: g.gain, ..f }
}

/// Gains changed within the allowed range keep a valid filter list valid.
proof fn lemma_gains_changed(fs: Seq<FilterView>, gs: Seq<FilterView>)
    requires
        filters_error(fs) is None,
        gs.len() == fs.len(),
        forall|i: int|
            0 <= i < gs.len() ==> same_but_gain(#[trigger] gs[i], fs[i]) && within(
                gs[i].gain,
                whole(-30),
                whole(30),
            ),
    ensures
        filters_error(gs) is None,
    decreases fs.len(),
{
    if fs.len() > 0 {
        let (fp, gp) = (fs.drop_last(), gs.drop_last());
        assert forall|i: int| 0 <= i < gp.len() implies same_but_gain(#[trigger] gp[i], fp[i])
            && within(gp[i].gain, whole(-30), whole(30)) by {
            assert(gp[i] == gs[i] && fp[i] == fs[i]);
        }
        lemma_gains_changed(fp, gp);
        let (f, g) = (fs.last(), gs.last());
        assert(g == gs[gs.len() - 1]);
        assert(id_among(g.id, gp) == id_among(f.id, fp)) by {
            if id_among(g.id, gp) {
                let j = choose|j: int| 0 <= j < gp.len() && (#[trigger] gp[j]).id == g.id;
                assert(gp[j] == gs[j]);
                assert(fp[j].id == f.id);
            }
            if id_among(f.id, fp) {
                let j = choose|j: int| 0 <= j < fp.len() && (#[trigger] fp[j]).id == f.id;
                assert(gp[j] == gs[j]);
                assert(gp[j].id == g.id);
            }
        }
    }
}

/// Gaming, made from valid Music and Movies profiles, is valid.
proof fn lemma_gaming_valid(m: ProfileView, f: ProfileView)
    requires
        profile_error(m) is None,
        profile_error(f) is None,
    ensures
        profile_error(gaming_of(m, f)) is None,
{
    let g = gaming_of(m, f);
    crate::apo::lemma_filters_ok(m.filters);
    crate::apo::lemma_filters_ok(f.filters);
    assert forall|i: int| 0 <= i < g.filters.len() implies same_but_gain(
        #[trigger] g.filters[i],
        m.filters[i],
    ) && within(g.filters[i].gain, whole(-30), whole(30)) by {
        assert(filter_error(m.filters[i], m.filters.take(i)) is None);
        if i < f.filters.len() {
            assert(filter_error(f.filters[i], f.filters.take(i)) is None);
        }
    }
    lemma_gains_changed(m.filters, g.filters);
    reveal_strlit("Gaming");
    reveal_strlit("gaming");
    lemma_plain_name("Gaming"@);
    assert("gaming"@ != stock_id());
}

proof fn lemma_stock_valid()
    ensures
        profile_error(stock_profile()) is None,
{
    reveal_strlit("Stock / EQ Off");
    lemma_plain_name("Stock / EQ Off"@);
    reveal_strlit("stock");
}

/// The database of a fresh installation is valid whenever the bundled
/// presets read as valid profiles for the default headphone, as every
/// successfully read preset is.
pub proof fn defaults_are_valid(a: ProfileView, b: ProfileView, c: ProfileView, d: ProfileView)
    requires
        profile_error(a) is None,
        profile_error(b) is None,
        profile_error(c) is None,
        profile_error(d) is None,
        a.headphone_id == "default"@,
        b.headphone_id == "default"@,
        c.headphone_id == "default"@,
        d.headphone_id == "default"@,
    ensures
        database_valid(
            default_database(
                bundled(a, "music"@, "music"@),
                bundled(b, "movies"@, "film"@),
                bundled(c, "fps"@, "target"@),
                bundled(d, "voice"@, "mic"@),
            ),
        ),
{
    reveal_strlit("music");
    reveal_strlit("movies");
    reveal_strlit("gaming");
    reveal_strlit("fps");
    reveal_strlit("voice");
    reveal_strlit("stock");
    reveal_strlit("default");
    let m = bundled(a, "music"@, "music"@);
    let f = bundled(b, "movies"@, "film"@);
    let c2 = bundled(c, "fps"@, "target"@);
    let d2 = bundled(d, "voice"@, "mic"@);
    assert("music"@ != stock_id());
    assert("movies"@ != stock_id());
    assert("fps"@ != stock_id());
    assert("voice"@ != stock_id());
    lemma_bundled_valid(a, "music"@, "music"@);
    lemma_bundled_valid(b, "movies"@, "film"@);
    lemma_bundled_valid(c, "fps"@, "target"@);
    lemma_bundled_valid(d, "voice"@, "mic"@);
    lemma_gaming_valid(m, f);
    lemma_stock_valid();
    let g = gaming_of(m, f);
    let s = stock_profile();
    let db = default_database(m, f, c2, d2);
    let hs = db.headphones;
    let ps = db.profiles;
    assert(ps == seq![m, f, g, c2, d2, s]);
    assert(has_headphone(hs, "default"@)) by {
        assert(hs[0].id == "default"@);
    }
    let p1 = seq![m];
    let p2 = seq![m, f];
    let p3 = seq![m, f, g];
    let p4 = seq![m, f, g, c2];
    let p5 = seq![m, f, g, c2, d2];
    assert(ps.drop_last() =~= p5);
    assert(p5.drop_last() =~= p4);
    assert(p4.drop_last() =~= p3);
    assert(p3.drop_last() =~= p2);
    assert(p2.drop_last() =~= p1);
    assert(p1.drop_last() =~= Seq::<ProfileView>::empty());
    assert(!has_profile(Seq::<ProfileView>::empty(), m.id));
    assert(!has_profile(p1, f.id)) by {
        assert("movies"@[1] != "music"@[1]);
    }
    assert(!has_profile(p2, g.id)) by {
        assert("gaming"@[0] != "music"@[0]);
        assert("gaming"@[0] != "movies"@[0]);
    }
    assert(!has_profile(p3, c2.id)) by {
        assert("fps"@.len() != "music"@.len());
        assert("fps"@.len() != "movies"@.len());
        assert("fps"@.len() != "gaming"@.len());
    }
    assert(!has_profile(p4, d2.id)) by {
        assert("voice"@[0] != "music"@[0]);
        assert("voice"@[0] != "movies"@[0]);
        assert("voice"@[0] != "gaming"@[0]);
        assert("voice"@[0] != "fps"@[0]);
    }
    assert(!has_profile(p5, s.id)) by {
        assert("stock"@[0] != "music"@[0]);
        assert("stock"@[0] != "movies"@[0]);
        assert("stock"@[0] != "gaming"@[0]);
        assert("stock"@[0] != "fps"@[0]);
        assert("stock"@[0] != "voice"@[0]);
    }
    assert(entries_error(Seq::<ProfileView>::empty(), hs) is None);
    assert(p1.last() == m);
    assert(m.headphone_id == "default"@);
    assert(entry_error(m, Seq::<ProfileView>::empty(), hs) is None);
    assert(entries_error(p1, hs) is None);
    assert(entries_error(p2, hs) is None);
    assert(entries_error(p3, hs) is None);
    assert(entries_error(p4, hs) is None);
    assert(entries_error(p5, hs) is None);
    assert(entries_error(ps, hs) is None);
    assert(has_profile(ps, stock_id())) by {
        assert(ps[5].id == stock_id());
    }
    assert(has_profile(ps, "music"@)) by {
        assert(ps[0].id == "music"@);
    }
    assert("music"@ != stock_id());
}

} // verus!
