use crate::addr::{self, AddrError, BDAddr};
use crate::interval::{self, Interval, IntervalError};
use crate::text::{self, IntError};
use vstd::prelude::*;
use vstd::slice::slice_subrange;
use vstd::string::*;

verus! {

/// The permission bits of the agent's socket.
#[derive(Clone, Copy, Debug, PartialEq, Eq, Structural)]
pub struct SocketMode {
    pub bits: u32,
}

/// Every permission bit.
pub const ALL_PERMISSIONS: u64 = 0o777;

/// The bits that `s` spells in octal, as `chmod` takes them.
pub open spec fn mode_bits(s: Seq<char>) -> Option<SocketMode> {
    match text::digits(s, 8, ALL_PERMISSIONS as nat) {
        Ok(n) if s.len() > 0 => Some(SocketMode { bits: n as u32 }),
        _ => None,
    }
}

impl SocketMode {
    /// Read a mode.
    pub fn parse(s: &str) -> (r: Option<SocketMode>)
        ensures
            r == mode_bits(s@),
            r matches Some(m) ==> m.bits <= ALL_PERMISSIONS,
    {
        let cs = text::chars(s);
        if cs.len() == 0 || cs[0] == '+' {
            proof {
                if cs@.len() > 0 {
                    text::lemma_digits_start(cs@, 8, ALL_PERMISSIONS as nat);
                }
            }
            return None;
        }
        match text::read_unsigned(cs.as_slice(), 8, ALL_PERMISSIONS) {
            Ok(n) => {
                proof {
                    text::lemma_digits_bound(cs@, 8, ALL_PERMISSIONS as nat);
                }
                Some(SocketMode { bits: n as u32 })
            },
            Err(_) => None,
        }
    }

    /// The mode in octal.
    pub open spec fn text(self) -> Seq<char> {
        text::pad(text::number(self.bits as nat, 8), 4)
    }

    /// Write the mode: `0600`.
    pub fn display(self) -> (s: String)
        ensures
            s@ == self.text(),
    {
        text::padded_string(self.bits as u64, 8, 4)
    }
}

/// Options needed to reach the device, whatever the mode.
#[derive(Clone, Copy, Debug, PartialEq, Eq)]
pub struct ConnectOpts {
    /// The adapter's index.
    pub index: Option<usize>,
    /// The address of the device.
    pub addr: Option<BDAddr>,
    /// The time to wait between updates.
    pub interval: Option<Interval>,
}

pub open spec fn either<T>(first: Option<T>, second: Option<T>) -> Option<T> {
    match first {
        Some(t) => Some(t),
        None => second,
    }
}

impl ConnectOpts {
    /// No option at all.
    pub open spec fn nothing() -> ConnectOpts {
        ConnectOpts { index: None, addr: None, interval: None }
    }

    /// `self` over `fallback`.
    pub open spec fn over(self, fallback: ConnectOpts) -> ConnectOpts {
        ConnectOpts {
            index: either(self.index, fallback.index),
            addr: either(self.addr, fallback.addr),
            interval: either(self.interval, fallback.interval),
        }
    }

    /// Overlay `self` on `fallback`: any field set here wins.
    pub fn or(&self, fallback: &ConnectOpts) -> (r: ConnectOpts)
        ensures
            r == self.over(*fallback),
    {
        ConnectOpts {
            index: if self.index.is_some() {
                self.index
            } else {
                fallback.index
            },
            addr: if self.addr.is_some() {
                self.addr
            } else {
                fallback.addr
            },
            interval: if self.interval.is_some() {
                self.interval
            } else {
                fallback.interval
            },
        }
    }
}

impl Default for ConnectOpts {
    fn default() -> (r: ConnectOpts)
        ensures
            r == ConnectOpts::nothing(),
    {
        ConnectOpts { index: None, addr: None, interval: None }
    }
}

/// Everything one device needs: how to reach it, and where the agent holding it
/// keeps its socket and metrics endpoint.
///
/// One type for three roles, because they have the same shape and the same
/// merge rule: a `[devices.*]` section, the config file's own top-level keys,
/// and what an invocation finally runs with once the command line has been
/// overlaid on both.
#[derive(Debug, PartialEq, Eq)]
pub struct Settings {
    pub connect: ConnectOpts,
    pub socket: Option<String>,
    pub socket_mode: Option<SocketMode>,
    pub metrics_listen: Option<String>,
}

/// What settings say.
#[verifier::ext_equal]
pub struct SettingsView {
    pub connect: ConnectOpts,
    pub socket: Option<Seq<char>>,
    pub socket_mode: Option<SocketMode>,
    pub metrics_listen: Option<Seq<char>>,
}

pub open spec fn text_of(s: Option<String>) -> Option<Seq<char>> {
    match s {
        Some(s) => Some(s@),
        None => None,
    }
}

impl View for Settings {
    type V = SettingsView;

    open spec fn view(&self) -> SettingsView {
        SettingsView {
            connect: self.connect,
            socket: text_of(self.socket),
            socket_mode: self.socket_mode,
            metrics_listen: text_of(self.metrics_listen),
        }
    }
}

impl SettingsView {
    /// Settings that say nothing.
    pub open spec fn nothing() -> SettingsView {
        SettingsView {
            connect: ConnectOpts::nothing(),
            socket: None,
            socket_mode: None,
            metrics_listen: None,
        }
    }

    /// `self` over `fallback`.
    pub open spec fn over(self, fallback: SettingsView) -> SettingsView {
        SettingsView {
            connect: self.connect.over(fallback.connect),
            socket: either(self.socket, fallback.socket),
            socket_mode: either(self.socket_mode, fallback.socket_mode),
            metrics_listen: either(self.metrics_listen, fallback.metrics_listen),
        }
    }
}

fn copied(s: &Option<String>) -> (r: Option<String>)
    ensures
        text_of(r) == text_of(*s),
{
    match s {
        Some(s) => Some(s.clone()),
        None => None,
    }
}

impl Clone for Settings {
    fn clone(&self) -> (r: Settings)
        ensures
            r@ == self@,
    {
        Settings {
            connect: self.connect,
            socket: copied(&self.socket),
            socket_mode: self.socket_mode,
            metrics_listen: copied(&self.metrics_listen),
        }
    }
}

impl Default for Settings {
    fn default() -> (r: Settings)
        ensures
            r@ == SettingsView::nothing(),
    {
        Settings {
            connect: ConnectOpts::default(),
            socket: None,
            socket_mode: None,
            metrics_listen: None,
        }
    }
}

impl Settings {
    /// Overlay `self` on `fallback`: any field set here wins. Used twice, with
    /// the same meaning both times: a `[devices.*]` section over the file's
    /// top-level keys, then the command line over the result.
    pub fn or(&self, fallback: &Settings) -> (r: Settings)
        ensures
            r@ == self@.over(fallback@),
    {
        Settings {
            connect: self.connect.or(&fallback.connect),
            socket: if self.socket.is_some() {
                copied(&self.socket)
            } else {
                copied(&fallback.socket)
            },
            socket_mode: if self.socket_mode.is_some() {
                self.socket_mode
            } else {
                fallback.socket_mode
            },
            metrics_listen: if self.metrics_listen.is_some() {
                copied(&self.metrics_listen)
            } else {
                copied(&fallback.metrics_listen)
            },
        }
    }

    /// The permissions of the agent's socket: those that were set, or its
    /// owner's alone.
    pub fn socket_mode(&self) -> (m: SocketMode)
        ensures
            m == (match self.socket_mode {
                Some(m) => m,
                None => SocketMode { bits: 0o600 },
            }),
            m == permissions(self.socket_mode),
    {
        match self.socket_mode {
            Some(m) => m,
            None => SocketMode { bits: 0o600 },
        }
    }
}

/// Overlaying in two steps is overlaying in any grouping: a section over the
/// file's keys, and the command line over both.
pub proof fn overlay_is_associative(a: SettingsView, b: SettingsView, c: SettingsView)
    ensures
        a.over(b).over(c) == a.over(b.over(c)),
{
}

/// Settings that say nothing change nothing, on either side.
pub proof fn overlay_with_nothing(a: SettingsView)
    ensures
        a.over(SettingsView::nothing()) == a,
        SettingsView::nothing().over(a) == a,
{
}

/// The text without one matching pair of double quotes around it.
pub open spec fn unquoted(s: Seq<char>) -> Seq<char> {
    if s.len() >= 2 && s[0] == '"' && s.last() == '"' {
        s.subrange(1, s.len() - 1)
    } else {
        s
    }
}

fn inside_quotes(s: &[char]) -> (r: &[char])
    ensures
        r@ == unquoted(s@),
        r@.len() <= s@.len(),
{
    let n: usize = s.len();
    if n >= 2 && s[0] == '"' && s[n - 1] == '"' {
        slice_subrange(s, 1, n - 1)
    } else {
        s
    }
}

/// Strip one matching pair of double quotes, so `addr = "..."` and `addr = ...`
/// both work. Peeling off every quote at both ends would quietly accept `""""`
/// and the like; leaving the extras in makes the value fail to parse with an
/// error naming the line.
pub fn unquote(value: &str) -> (r: String)
    ensures
        r@ == unquoted(value@),
{
    let cs = text::chars(value);
    text::string(inside_quotes(cs.as_slice()))
}

/// An address to listen on: as a config file spells it, and as it is usually
/// written.
#[derive(Debug)]
pub struct Endpoint {
    pub spelling: String,
    pub canonical: String,
}

/// The usual form of an address that `value` spells, where it is one of
/// `endpoints`.
pub open spec fn canonical(endpoints: Seq<Endpoint>, value: Seq<char>) -> Option<Seq<char>>
    decreases endpoints.len(),
{
    if endpoints.len() == 0 {
        None
    } else if endpoints[0].spelling@ == value {
        Some(endpoints[0].canonical@)
    } else {
        canonical(endpoints.drop_first(), value)
    }
}

fn find_canonical(endpoints: &Vec<Endpoint>, value: &[char]) -> (r: Option<String>)
    ensures
        text_of(r) == canonical(endpoints@, value@),
{
    let mut i: usize = 0;
    proof {
        assert(endpoints@.skip(0) =~= endpoints@);
    }
    while i < endpoints.len()
        invariant
            i <= endpoints@.len(),
            canonical(endpoints@, value@) == canonical(endpoints@.skip(i as int), value@),
        decreases endpoints@.len() - i,
    {
        proof {
            assert(endpoints@.skip(i as int).drop_first() =~= endpoints@.skip(i + 1));
        }
        if text::is_word(value, endpoints[i].spelling.as_str()) {
            return Some(endpoints[i].canonical.clone());
        }
        i = i + 1;
    }
    None
}

/// What is wrong with a config file.
#[derive(Clone, Copy, Debug, PartialEq, Eq, Structural)]
pub enum ConfigErrorKind {
    UnterminatedSection,
    UnknownSection,
    UnnamedSection,
    NotAPair,
    MisplacedDefault,
    InvalidIndex(IntError),
    InvalidInterval(IntervalError),
    InvalidAddr(AddrError),
    InvalidSocketMode,
    InvalidMetricsListen,
    UnknownKey,
    UnknownDefault,
}

/// The settings with one `key = value` pair applied.
pub open spec fn assigned(
    p: SettingsView,
    key: Seq<char>,
    value: Seq<char>,
    endpoints: Seq<Endpoint>,
) -> Result<SettingsView, ConfigErrorKind> {
    if key == "index"@ {
        match text::unsigned(value, 10, usize::MAX as nat) {
            Ok(n) => Ok(
                SettingsView {
                    connect: ConnectOpts { index: Some(n as usize), ..p.connect },
                    ..p
                },
            ),
            Err(e) => Err(ConfigErrorKind::InvalidIndex(e)),
        }
    } else if key == "interval"@ {
        match interval::parsed(value) {
            Ok(n) => Ok(
                SettingsView {
                    connect: ConnectOpts { interval: Some(Interval::of(n)), ..p.connect },
                    ..p
                },
            ),
            Err(e) => Err(ConfigErrorKind::InvalidInterval(e)),
        }
    } else if key == "addr"@ {
        match addr::parsed(value) {
            Ok(a) => Ok(
                SettingsView { connect: ConnectOpts { addr: Some(a), ..p.connect }, ..p },
            ),
            Err(e) => Err(ConfigErrorKind::InvalidAddr(e)),
        }
    } else if key == "socket"@ {
        Ok(SettingsView { socket: Some(value), ..p })
    } else if key == "socket_mode"@ {
        match mode_bits(value) {
            Some(m) => Ok(SettingsView { socket_mode: Some(m), ..p }),
            None => Err(ConfigErrorKind::InvalidSocketMode),
        }
    } else if key == "metrics_listen"@ {
        match canonical(endpoints, value) {
            Some(a) => Ok(SettingsView { metrics_listen: Some(a), ..p }),
            None => Err(ConfigErrorKind::InvalidMetricsListen),
        }
    } else {
        Err(ConfigErrorKind::UnknownKey)
    }
}

/// Apply one `key = value` pair to `profile`. Unknown keys are hard errors, so
/// a typo cannot silently leave a default in place.
pub fn assign(profile: &mut Settings, key: &[char], value: &[char], endpoints: &Vec<Endpoint>) -> (r:
    Result<(), ConfigErrorKind>)
    ensures
        r is Ok <==> assigned(old(profile)@, key@, value@, endpoints@) is Ok,
        r is Ok ==> final(profile)@ == assigned(old(profile)@, key@, value@, endpoints@)->Ok_0,
        r matches Err(e) ==> e == assigned(old(profile)@, key@, value@, endpoints@)->Err_0
            && *final(profile) == *old(profile),
{
    if text::is_word(key, "index") {
        match text::read_unsigned(value, 10, usize::MAX as u64) {
            Ok(n) => {
                profile.connect.index = Some(n as usize);
                Ok(())
            },
            Err(e) => Err(ConfigErrorKind::InvalidIndex(e)),
        }
    } else if text::is_word(key, "interval") {
        match interval::parse_interval(text::string(value).as_str()) {
            Ok(i) => {
                profile.connect.interval = Some(i);
                Ok(())
            },
            Err(e) => Err(ConfigErrorKind::InvalidInterval(e)),
        }
    } else if text::is_word(key, "addr") {
        match BDAddr::parse(text::string(value).as_str()) {
            Ok(a) => {
                profile.connect.addr = Some(a);
                Ok(())
            },
            Err(e) => Err(ConfigErrorKind::InvalidAddr(e)),
        }
    } else if text::is_word(key, "socket") {
        profile.socket = Some(text::string(value));
        Ok(())
    } else if text::is_word(key, "socket_mode") {
        match SocketMode::parse(text::string(value).as_str()) {
            Some(m) => {
                profile.socket_mode = Some(m);
                Ok(())
            },
            None => Err(ConfigErrorKind::InvalidSocketMode),
        }
    } else if text::is_word(key, "metrics_listen") {
        match find_canonical(endpoints, value) {
            Some(a) => {
                profile.metrics_listen = Some(a);
                Ok(())
            },
            None => Err(ConfigErrorKind::InvalidMetricsListen),
        }
    } else {
        Err(ConfigErrorKind::UnknownKey)
    }
}

/// What a config file says.
#[verifier::ext_equal]
pub struct ConfigView {
    pub defaults: SettingsView,
    pub devices: Map<Seq<char>, SettingsView>,
    pub default_device: Option<Seq<char>>,
}

/// What is wrong with a config file: on which line, counted from one, or in the
/// file as a whole where that is zero; with what text; and which devices the
/// file does define, where one is missing.
#[verifier::ext_equal]
pub struct ConfigErrorView {
    pub line: nat,
    pub kind: ConfigErrorKind,
    pub text: Seq<char>,
    pub known: Seq<char>,
}

/// What has been read of a config file: its contents so far, and the section
/// that the next keys belong to.
#[verifier::ext_equal]
pub struct State {
    pub config: ConfigView,
    pub section: Option<Seq<char>>,
}

/// Nothing read yet.
pub open spec fn start() -> State {
    State {
        config: ConfigView {
            defaults: SettingsView::nothing(),
            devices: Map::empty(),
            default_device: None,
        },
        section: None,
    }
}

/// What a line says.
pub enum Line {
    Nothing,
    Section(Seq<char>),
    Pair(Seq<char>, Seq<char>),
    Wrong(ConfigErrorKind, Seq<char>),
}

/// What the header of a section says, given what follows its bracket.
pub open spec fn header_of(line: Seq<char>) -> Line {
    let header = line.drop_first();
    if header.len() == 0 || header.last() != ']' {
        Line::Wrong(ConfigErrorKind::UnterminatedSection, line)
    } else {
        let name = text::trim(header.drop_last());
        let n = "devices."@.len();
        if name.len() < n || name.take(n as int) != "devices."@ {
            Line::Wrong(ConfigErrorKind::UnknownSection, name)
        } else {
            let device = unquoted(text::trim(name.skip(n as int)));
            if device.len() == 0 {
                Line::Wrong(ConfigErrorKind::UnnamedSection, Seq::empty())
            } else {
                Line::Section(device)
            }
        }
    }
}

/// What a line says: nothing where it is blank or a comment, the name of a
/// device where it is a section header, and otherwise a key and its value.
pub open spec fn line_of(raw: Seq<char>) -> Line {
    let line = text::trim(raw);
    if line.len() == 0 || line[0] == '#' {
        Line::Nothing
    } else if line[0] == '[' {
        header_of(line)
    } else {
        let i = text::find(line, '=');
        if i >= line.len() {
            Line::Wrong(ConfigErrorKind::NotAPair, line)
        } else {
            Line::Pair(
                text::trim(line.take(i as int)),
                unquoted(text::trim(line.skip(i as int + 1))),
            )
        }
    }
}

pub open spec fn wrong(line: nat, kind: ConfigErrorKind, text: Seq<char>) -> ConfigErrorView {
    ConfigErrorView { line, kind, text, known: Seq::empty() }
}

/// What an error in a pair is about: the key where nothing is known of it, and
/// the value otherwise.
pub open spec fn culprit(kind: ConfigErrorKind, key: Seq<char>, value: Seq<char>) -> Seq<char> {
    if kind == ConfigErrorKind::UnknownKey {
        key
    } else {
        value
    }
}

/// The state after one more line, the `n`th.
pub open spec fn step(st: State, raw: Seq<char>, n: nat, endpoints: Seq<Endpoint>) -> Result<
    State,
    ConfigErrorView,
> {
    match line_of(raw) {
        Line::Nothing => Ok(st),
        Line::Wrong(kind, text) => Err(wrong(n, kind, text)),
        // Re-entering a section adds to it rather than replacing it.
        Line::Section(device) => Ok(
            State {
                config: ConfigView {
                    devices: if st.config.devices.dom().contains(device) {
                        st.config.devices
                    } else {
                        st.config.devices.insert(device, SettingsView::nothing())
                    },
                    ..st.config
                },
                section: Some(device),
            },
        ),
        Line::Pair(key, value) => if key == "default"@ {
            // `default` selects a section, so it belongs to the file rather than
            // to any one profile.
            if st.section is Some {
                Err(wrong(n, ConfigErrorKind::MisplacedDefault, Seq::empty()))
            } else {
                Ok(State { config: ConfigView { default_device: Some(value), ..st.config }, ..st })
            }
        } else {
            match st.section {
                None => match assigned(st.config.defaults, key, value, endpoints) {
                    Err(kind) => Err(wrong(n, kind, culprit(kind, key, value))),
                    Ok(defaults) => Ok(State { config: ConfigView { defaults, ..st.config }, ..st }),
                },
                Some(device) => match assigned(
                    st.config.devices[device],
                    key,
                    value,
                    endpoints,
                ) {
                    Err(kind) => Err(wrong(n, kind, culprit(kind, key, value))),
                    Ok(p) => Ok(
                        State {
                            config: ConfigView {
                                devices: st.config.devices.insert(device, p),
                                ..st.config
                            },
                            ..st
                        },
                    ),
                },
            }
        },
    }
}

/// The state after all of `lines`, or what is wrong with the first that is
/// wrong.
pub open spec fn read_lines(lines: Seq<Seq<char>>, endpoints: Seq<Endpoint>) -> Result<
    State,
    ConfigErrorView,
>
    decreases lines.len(),
{
    if lines.len() == 0 {
        Ok(start())
    } else {
        match read_lines(lines.drop_last(), endpoints) {
            Err(e) => Err(e),
            Ok(st) => step(st, lines.last(), lines.len(), endpoints),
        }
    }
}

/// Whether `names` holds what is in `set`, in order and nothing twice.
pub open spec fn lists(names: Seq<Seq<char>>, set: Set<Seq<char>>) -> bool {
    &&& forall|i: int, j: int| 0 <= i < j < names.len() ==> text::before(names[i], names[j])
    &&& forall|n: Seq<char>|
        #![trigger set.contains(n)]
        #![trigger names.contains(n)]
        set.contains(n) <==> names.contains(n)
}

/// The names in `set`, in order.
pub open spec fn listing(set: Set<Seq<char>>) -> Seq<Seq<char>> {
    choose|names: Seq<Seq<char>>| lists(names, set)
}

/// What can be said of the devices that a file defines.
pub open spec fn known_devices(names: Seq<Seq<char>>) -> Seq<char> {
    if names.len() == 0 {
        "the file defines no [devices.*] sections"@
    } else {
        "known devices: "@ + text::join(names, ", "@)
    }
}

/// What the text of a config file says.
pub open spec fn config_of(text: Seq<char>, endpoints: Seq<Endpoint>) -> Result<
    ConfigView,
    ConfigErrorView,
> {
    match read_lines(text::lines(text), endpoints) {
        Err(e) => Err(e),
        Ok(st) => match st.config.default_device {
            // A `default` naming nothing is a typo that would otherwise only
            // surface as the wrong device, or as no device at all.
            Some(name) if !st.config.devices.dom().contains(name) => Err(
                ConfigErrorView {
                    line: 0,
                    kind: ConfigErrorKind::UnknownDefault,
                    text: name,
                    known: known_devices(listing(st.config.devices.dom())),
                },
            ),
            _ => Ok(st.config),
        },
    }
}

/// There is one way to list a set of names.
pub proof fn one_listing(a: Seq<Seq<char>>, b: Seq<Seq<char>>, set: Set<Seq<char>>)
    requires
        lists(a, set),
        lists(b, set),
    ensures
        a == b,
    decreases a.len(),
{
    if a.len() == 0 {
        if b.len() > 0 {
            assert(b.contains(b[0]));
            assert(a.contains(b[0]));
        }
        assert(a =~= b);
    } else {
        let (x, y) = (a.last(), b.last());
        assert(a.contains(x) && set.contains(x) && b.contains(x));
        assert(b.len() > 0);
        assert(b.contains(y) && set.contains(y) && a.contains(y));
        let i = choose|i: int| 0 <= i < b.len() && b[i] == x;
        let j = choose|j: int| 0 <= j < a.len() && a[j] == y;
        text::lemma_before_total(x, y);
        assert(x == y);
        let rest = set.remove(x);
        let (s, t) = (a.drop_last(), b.drop_last());
        assert forall|n: Seq<char>|
            #![trigger rest.contains(n)]
            #![trigger s.contains(n)]
            rest.contains(n) <==> s.contains(n) by {
            text::lemma_before_total(x, x);
            if rest.contains(n) {
                let k = choose|k: int| 0 <= k < a.len() && a[k] == n;
                assert(s[k] == n);
            }
            if s.contains(n) {
                let k = choose|k: int| 0 <= k < s.len() && s[k] == n;
                assert(a[k] == n);
                assert(text::before(a[k], a[a.len() - 1]));
            }
        }
        assert forall|n: Seq<char>|
            #![trigger rest.contains(n)]
            #![trigger t.contains(n)]
            rest.contains(n) <==> t.contains(n) by {
            text::lemma_before_total(x, x);
            if rest.contains(n) {
                let k = choose|k: int| 0 <= k < b.len() && b[k] == n;
                assert(t[k] == n);
            }
            if t.contains(n) {
                let k = choose|k: int| 0 <= k < t.len() && t[k] == n;
                assert(b[k] == n);
                assert(text::before(b[k], b[b.len() - 1]));
            }
        }
        one_listing(s, t, rest);
        assert(a =~= s.push(x));
        assert(b =~= t.push(y));
    }
}

/// A section of a config file.
#[derive(Debug)]
pub struct Device {
    pub name: String,
    pub settings: Settings,
}

/// The sections by their names.
pub open spec fn device_map(devices: Seq<Device>) -> Map<Seq<char>, SettingsView>
    decreases devices.len(),
{
    if devices.len() == 0 {
        Map::empty()
    } else {
        device_map(devices.drop_last()).insert(devices.last().name@, devices.last().settings@)
    }
}

/// Whether the sections stand in the order of their names, none of them twice.
pub open spec fn in_order(devices: Seq<Device>) -> bool {
    forall|i: int, j: int|
        0 <= i < j < devices.len() ==> text::before(
            #[trigger] devices[i].name@,
            #[trigger] devices[j].name@,
        )
}

/// The names of the sections.
pub open spec fn names_of(devices: Seq<Device>) -> Seq<Seq<char>> {
    devices.map_values(|d: Device| d.name@)
}

proof fn lemma_device_map(devices: Seq<Device>)
    requires
        in_order(devices),
    ensures
        forall|i: int|
            #![trigger devices[i]]
            0 <= i < devices.len() ==> device_map(devices).dom().contains(devices[i].name@)
                && device_map(devices)[devices[i].name@] == devices[i].settings@,
        forall|n: Seq<char>| #[trigger]
            device_map(devices).dom().contains(n) ==> exists|i: int|
                0 <= i < devices.len() && #[trigger] devices[i].name@ == n,
    decreases devices.len(),
{
    if devices.len() > 0 {
        let rest = devices.drop_last();
        lemma_device_map(rest);
        let last = devices.len() - 1;
        assert forall|i: int| #![trigger devices[i]] 0 <= i < devices.len() implies device_map(
            devices,
        ).dom().contains(devices[i].name@) && device_map(devices)[devices[i].name@]
            == devices[i].settings@ by {
            if i < last {
                assert(rest[i] == devices[i]);
                text::lemma_before_total(devices[i].name@, devices[last].name@);
            }
        }
        assert forall|n: Seq<char>| #[trigger]
            device_map(devices).dom().contains(n) implies exists|i: int|
            0 <= i < devices.len() && #[trigger] devices[i].name@ == n by {
            if n == devices[last].name@ {
            } else {
                assert(device_map(rest).dom().contains(n));
                let i = choose|i: int| 0 <= i < rest.len() && #[trigger] rest[i].name@ == n;
                assert(devices[i].name@ == n);
            }
        }
    }
}

proof fn lemma_names_list(devices: Seq<Device>)
    requires
        in_order(devices),
    ensures
        lists(names_of(devices), device_map(devices).dom()),
        listing(device_map(devices).dom()) == names_of(devices),
{
    lemma_device_map(devices);
    let (names, set) = (names_of(devices), device_map(devices).dom());
    assert forall|i: int, j: int| 0 <= i < j < names.len() implies text::before(
        names[i],
        names[j],
    ) by {
        assert(text::before(devices[i].name@, devices[j].name@));
    }
    assert forall|n: Seq<char>|
            #![trigger set.contains(n)]
            #![trigger names.contains(n)]
            set.contains(n) <==> names.contains(n) by {
        if set.contains(n) {
            let i = choose|i: int| 0 <= i < devices.len() && #[trigger] devices[i].name@ == n;
            assert(names[i] == n);
        }
        if names.contains(n) {
            let i = choose|i: int| 0 <= i < names.len() && names[i] == n;
            assert(devices[i].name@ == n);
        }
    }
    assert(lists(names, set));
    one_listing(listing(set), names, set);
}

/// Where a name stands, or would stand, among the sections.
fn place(devices: &Vec<Device>, name: &[char]) -> (r: (usize, bool))
    requires
        in_order(devices@),
    ensures
        r.0 <= devices@.len(),
        r.1 == device_map(devices@).dom().contains(name@),
        r.1 ==> r.0 < devices@.len() && devices@[r.0 as int].name@ == name@,
        forall|i: int| 0 <= i < r.0 ==> text::before(#[trigger] devices@[i].name@, name@),
        !r.1 ==> forall|i: int|
            r.0 <= i < devices@.len() ==> text::before(name@, #[trigger] devices@[i].name@),
{
    proof {
        lemma_device_map(devices@);
    }
    let mut i: usize = 0;
    while i < devices.len()
        invariant
            i <= devices@.len(),
            in_order(devices@),
            forall|j: int| 0 <= j < i ==> text::before(#[trigger] devices@[j].name@, name@),
        ensures
            i < devices@.len() ==> !text::before(devices@[i as int].name@, name@),
        decreases devices@.len() - i,
    {
        let cs = text::chars(devices[i].name.as_str());
        if !text::precedes(cs.as_slice(), name) {
            break;
        }
        i = i + 1;
    }
    if i < devices.len() && text::is_word(name, devices[i].name.as_str()) {
        return (i, true);
    }
    proof {
        if i < devices.len() {
            text::lemma_before_total(devices@[i as int].name@, name@);
        }
        assert forall|k: int| i <= k < devices@.len() implies text::before(
            name@,
            #[trigger] devices@[k].name@,
        ) by {
            if k > i {
                text::lemma_before_transitive(
                    name@,
                    devices@[i as int].name@,
                    devices@[k].name@,
                );
            }
        }
        if device_map(devices@).dom().contains(name@) {
            let k = choose|k: int|
                0 <= k < devices@.len() && #[trigger] devices@[k].name@ == name@;
            text::lemma_before_total(name@, name@);
        }
    }
    (i, false)
}

proof fn lemma_insert(devices: Seq<Device>, at: int, device: Device)
    requires
        in_order(devices),
        0 <= at <= devices.len(),
        forall|i: int| 0 <= i < at ==> text::before(#[trigger] devices[i].name@, device.name@),
        forall|i: int|
            at <= i < devices.len() ==> text::before(device.name@, #[trigger] devices[i].name@),
    ensures
        in_order(devices.insert(at, device)),
        device_map(devices.insert(at, device)) == device_map(devices).insert(
            device.name@,
            device.settings@,
        ),
{
    let after = devices.insert(at, device);
    assert forall|i: int, j: int| 0 <= i < j < after.len() implies text::before(
        #[trigger] after[i].name@,
        #[trigger] after[j].name@,
    ) by {
        let a = if i < at {
            devices[i]
        } else {
            devices[i - 1]
        };
        let b = if j < at {
            devices[j]
        } else {
            devices[j - 1]
        };
        if i == at {
            assert(after[j] == devices[j - 1]);
        } else if j == at {
            assert(after[i] == devices[i]);
        } else {
            assert(after[i] == a && after[j] == b);
        }
    }
    lemma_device_map(devices);
    lemma_device_map(after);
    let (m, n) = (device_map(devices).insert(device.name@, device.settings@), device_map(after));
    assert(after[at] == device);
    assert forall|name: Seq<char>| #[trigger] m.dom().contains(name) implies n.dom().contains(name)
        && m[name] == n[name] by {
        if name != device.name@ {
            let i = choose|i: int| 0 <= i < devices.len() && #[trigger] devices[i].name@ == name;
            let j = if i < at {
                i
            } else {
                i + 1
            };
            assert(after[j] == devices[i]);
        }
    }
    assert forall|name: Seq<char>| #[trigger] n.dom().contains(name) implies m.dom().contains(
        name,
    ) by {
        let j = choose|j: int| 0 <= j < after.len() && #[trigger] after[j].name@ == name;
        if j < at {
            assert(after[j] == devices[j]);
        } else if j > at {
            assert(after[j] == devices[j - 1]);
        }
    }
    assert(m =~= n);
}

proof fn lemma_update(devices: Seq<Device>, at: int, device: Device)
    requires
        in_order(devices),
        0 <= at < devices.len(),
        device.name@ == devices[at].name@,
    ensures
        in_order(devices.update(at, device)),
        device_map(devices.update(at, device)) == device_map(devices).insert(
            device.name@,
            device.settings@,
        ),
{
    let after = devices.update(at, device);
    assert forall|i: int, j: int| 0 <= i < j < after.len() implies text::before(
        #[trigger] after[i].name@,
        #[trigger] after[j].name@,
    ) by {
        assert(after[i].name@ == devices[i].name@);
        assert(after[j].name@ == devices[j].name@);
    }
    lemma_device_map(devices);
    lemma_device_map(after);
    let (m, n) = (device_map(devices).insert(device.name@, device.settings@), device_map(after));
    assert(after[at] == device);
    assert forall|name: Seq<char>| #[trigger] m.dom().contains(name) implies n.dom().contains(name)
        && m[name] == n[name] by {
        if name != device.name@ {
            let i = choose|i: int| 0 <= i < devices.len() && #[trigger] devices[i].name@ == name;
            assert(after[i] == devices[i]);
        }
    }
    assert forall|name: Seq<char>| #[trigger] n.dom().contains(name) implies m.dom().contains(
        name,
    ) by {
        let j = choose|j: int| 0 <= j < after.len() && #[trigger] after[j].name@ == name;
        assert(devices[j].name@ == name);
    }
    assert(m =~= n);
}

/// What is wrong with a config file.
#[derive(Debug)]
pub struct ConfigError {
    pub line: usize,
    pub kind: ConfigErrorKind,
    pub text: String,
    pub known: String,
}

impl View for ConfigError {
    type V = ConfigErrorView;

    open spec fn view(&self) -> ConfigErrorView {
        ConfigErrorView {
            line: self.line as nat,
            kind: self.kind,
            text: self.text@,
            known: self.known@,
        }
    }
}

fn error(line: usize, kind: ConfigErrorKind, text: &[char]) -> (e: ConfigError)
    ensures
        e@ == wrong(line as nat, kind, text@),
{
    ConfigError { line, kind, text: text::string(text), known: String::new() }
}

/// The config file: keys given outside any section, the `[devices.NAME]`
/// sections in the order of their names, and which of them `--device` defaults
/// to.
#[derive(Debug)]
pub struct FileConfig {
    defaults: Settings,
    devices: Vec<Device>,
    default_device: Option<String>,
    path: String,
}

impl View for FileConfig {
    type V = ConfigView;

    closed spec fn view(&self) -> ConfigView {
        ConfigView {
            defaults: self.defaults@,
            devices: device_map(self.devices@),
            default_device: text_of(self.default_device),
        }
    }
}

impl FileConfig {
    /// Whether the sections are in order, none of them twice.
    pub closed spec fn wf(self) -> bool {
        in_order(self.devices@)
    }

    /// The file that was read.
    pub closed spec fn path(self) -> Seq<char> {
        self.path@
    }
}

/// A config file that is being read.
struct Reader {
    config: FileConfig,
    section: Option<usize>,
}

impl Reader {
    spec fn wf(self) -> bool {
        &&& self.config.wf()
        &&& self.section matches Some(i) ==> i < self.config.devices@.len()
    }

    spec fn state(self) -> State {
        State {
            config: self.config@,
            section: match self.section {
                Some(i) => Some(self.config.devices@[i as int].name@),
                None => None,
            },
        }
    }

    /// Enter the section of `device`.
    fn enter(&mut self, device: &[char])
        requires
            old(self).wf(),
        ensures
            final(self).wf(),
            final(self).config.path == old(self).config.path,
            final(self).state().section == Some(device@),
            final(self).state().config == (ConfigView {
                devices: if old(self).state().config.devices.dom().contains(device@) {
                    old(self).state().config.devices
                } else {
                    old(self).state().config.devices.insert(device@, SettingsView::nothing())
                },
                ..old(self).state().config
            }),
    {
        let (i, found) = place(&self.config.devices, device);
        if !found {
            let new = Device { name: text::string(device), settings: Settings::default() };
            proof {
                lemma_insert(self.config.devices@, i as int, new);
            }
            self.config.devices.insert(i, new);
        }
        self.section = Some(i);
    }

    /// Take in one line.
    fn take(&mut self, raw: &[char], n: usize, endpoints: &Vec<Endpoint>) -> (r: Result<
        (),
        ConfigError,
    >)
        requires
            old(self).wf(),
        ensures
            final(self).wf(),
            final(self).config.path == old(self).config.path,
            r is Ok <==> step(old(self).state(), raw@, n as nat, endpoints@) is Ok,
            r is Ok ==> final(self).state() == step(
                old(self).state(),
                raw@,
                n as nat,
                endpoints@,
            )->Ok_0,
            r matches Err(e) ==> e@ == step(old(self).state(), raw@, n as nat, endpoints@)->Err_0,
    {
        let line = text::trimmed(raw);
        if line.len() == 0 || line[0] == '#' {
            return Ok(());
        }
        if line[0] == '[' {
            let header = slice_subrange(line, 1, line.len());
            proof {
                assert(line@.drop_first() =~= header@);
            }
            if header.len() == 0 || header[header.len() - 1] != ']' {
                return Err(error(n, ConfigErrorKind::UnterminatedSection, line));
            }
            proof {
                assert(header@.drop_last() =~= header@.subrange(0, header@.len() - 1));
            }
            let name = text::trimmed(slice_subrange(header, 0, header.len() - 1));
            let word = text::chars("devices.");
            let k: usize = word.len();
            if name.len() < k || !text::same(slice_subrange(name, 0, k), word.as_slice()) {
                proof {
                    if name@.len() >= k {
                        assert(name@.take(k as int) =~= name@.subrange(0, k as int));
                    }
                }
                return Err(error(n, ConfigErrorKind::UnknownSection, name));
            }
            proof {
                assert(name@.take(k as int) =~= name@.subrange(0, k as int));
                assert(name@.skip(k as int) =~= name@.subrange(k as int, name@.len() as int));
            }
            let device = inside_quotes(text::trimmed(slice_subrange(name, k, name.len())));
            if device.len() == 0 {
                return Err(error(n, ConfigErrorKind::UnnamedSection, device));
            }
            self.enter(device);
            return Ok(());
        }
        let i: usize = text::position(line, '=');
        if i >= line.len() {
            return Err(error(n, ConfigErrorKind::NotAPair, line));
        }
        proof {
            assert(line@.take(i as int) =~= line@.subrange(0, i as int));
            assert(line@.skip(i + 1) =~= line@.subrange(i + 1, line@.len() as int));
        }
        let key = text::trimmed(slice_subrange(line, 0, i));
        let value = inside_quotes(text::trimmed(slice_subrange(line, i + 1, line.len())));
        if text::is_word(key, "default") {
            if self.section.is_some() {
                return Err(
                    error(n, ConfigErrorKind::MisplacedDefault, slice_subrange(line, 0, 0)),
                );
            }
            self.config.default_device = Some(text::string(value));
            return Ok(());
        }
        let assigned = match self.section {
            None => assign(&mut self.config.defaults, key, value, endpoints),
            Some(at) => self.assign_in(at, key, value, endpoints),
        };
        match assigned {
            Ok(()) => Ok(()),
            Err(kind) => Err(
                error(
                    n,
                    kind,
                    if matches!(kind, ConfigErrorKind::UnknownKey) {
                        key
                    } else {
                        value
                    },
                ),
            ),
        }
    }

    /// Assign a key in the section at `at`.
    fn assign_in(
        &mut self,
        at: usize,
        key: &[char],
        value: &[char],
        endpoints: &Vec<Endpoint>,
    ) -> (r: Result<(), ConfigErrorKind>)
        requires
            old(self).wf(),
            old(self).section == Some(at),
        ensures
            final(self).wf(),
            final(self).config.path == old(self).config.path,
            ({
                let st = old(self).state();
                let device = st.section->0;
                let after = assigned(st.config.devices[device], key@, value@, endpoints@);
                &&& r is Ok <==> after is Ok
                &&& r is Ok ==> final(self).state() == (State {
                    config: ConfigView {
                        devices: st.config.devices.insert(device, after->Ok_0),
                        ..st.config
                    },
                    ..st
                })
                &&& r matches Err(e) ==> e == after->Err_0
            }),
    {
        let ghost before = self.config.devices@;
        proof {
            lemma_device_map(before);
        }
        let mut settings = self.config.devices[at].settings.clone();
        match assign(&mut settings, key, value, endpoints) {
            Ok(()) => {
                let name = self.config.devices[at].name.clone();
                let device = Device { name, settings };
                proof {
                    lemma_update(before, at as int, device);
                }
                self.config.devices.set(at, device);
                Ok(())
            },
            Err(e) => Err(e),
        }
    }
}

proof fn lemma_read_error(lines: Seq<Seq<char>>, i: int, endpoints: Seq<Endpoint>)
    requires
        0 <= i <= lines.len(),
        read_lines(lines.take(i), endpoints) is Err,
    ensures
        read_lines(lines, endpoints) == read_lines(lines.take(i), endpoints),
    decreases lines.len() - i,
{
    if i == lines.len() {
        assert(lines.take(i) =~= lines);
    } else {
        assert(lines.take(i + 1).drop_last() =~= lines.take(i));
        lemma_read_error(lines, i + 1, endpoints);
    }
}

proof fn lemma_next<A>(all: Seq<A>, n: int, first: A, rest: Seq<A>)
    requires
        0 <= n <= all.len(),
        all.skip(n) == seq![first] + rest,
    ensures
        n < all.len(),
        all[n] == first,
        all.skip(n + 1) == rest,
{
    assert(all.skip(n).len() == 1 + rest.len());
    assert(all.skip(n)[0] == first);
    assert(all.skip(n + 1) =~= all.skip(n).drop_first());
    assert((seq![first] + rest).drop_first() =~= rest);
}

/// Parse a config file: `key = value` lines, optionally grouped into
/// `[devices.NAME]` sections. Keys before the first section are defaults every
/// section inherits, which is also the whole configuration for a file with no
/// sections at all.
///
/// `endpoints` are the addresses to listen on that the file may give; see
/// `listen_values`.
pub fn parse_config(text: &str, path: String, endpoints: &Vec<Endpoint>) -> (r: Result<
    FileConfig,
    ConfigError,
>)
    ensures
        r is Ok <==> config_of(text@, endpoints@) is Ok,
        r matches Ok(config) ==> config@ == config_of(text@, endpoints@)->Ok_0 && config.wf()
            && config.path() == path@,
        r matches Err(e) ==> e@ == config_of(text@, endpoints@)->Err_0,
{
    let ghost the_path = path@;
    let cs = text::chars(text);
    let mut reader = Reader {
        config: FileConfig {
            defaults: Settings::default(),
            devices: Vec::new(),
            default_device: None,
            path,
        },
        section: None,
    };
    let mut rest: &[char] = cs.as_slice();
    let count: usize = cs.len();
    let mut n: usize = 0;
    let ghost all = text::lines(text@);
    proof {
        assert(all.skip(0) =~= all);
        assert(all.take(0) =~= Seq::empty());
        assert(reader.state() =~~= start());
    }
    while rest.len() > 0
        invariant
            reader.wf(),
            reader.config.path@ == the_path,
            all == text::lines(text@),
            n + rest@.len() <= count,
            n <= all.len(),
            all.skip(n as int) == text::lines(rest@),
            read_lines(all.take(n as int), endpoints@) == Ok::<State, ConfigErrorView>(
                reader.state(),
            ),
        decreases rest@.len(),
    {
        let (line, after) = text::next_line(rest);
        proof {
            lemma_next(all, n as int, line@, text::lines(after@));
            assert(all.take(n + 1).drop_last() =~= all.take(n as int));
        }
        n = n + 1;
        if let Err(e) = reader.take(line, n, endpoints) {
            proof {
                lemma_read_error(all, n as int, endpoints@);
            }
            return Err(e);
        }
        rest = after;
    }
    proof {
        assert(all.take(n as int) =~= all);
    }
    let Reader { config, section: _ } = reader;
    if let Some(name) = &config.default_device {
        let name_chars = text::chars(name.as_str());
        if !place(&config.devices, name_chars.as_slice()).1 {
            let known = config.device_names();
            proof {
                lemma_names_list(config.devices@);
            }
            return Err(
                ConfigError {
                    line: 0,
                    kind: ConfigErrorKind::UnknownDefault,
                    text: name.clone(),
                    known,
                },
            );
        }
    }
    Ok(config)
}

impl FileConfig {
    /// The names of the sections, in order.
    pub closed spec fn names(self) -> Seq<Seq<char>> {
        names_of(self.devices@)
    }

    /// What can be said of the devices that the file defines.
    pub fn device_names(&self) -> (s: String)
        ensures
            s@ == known_devices(self.names()),
    {
        if self.devices.len() == 0 {
            return "the file defines no [devices.*] sections".to_owned();
        }
        let mut names: Vec<String> = Vec::new();
        let mut i: usize = 0;
        while i < self.devices.len()
            invariant
                i <= self.devices@.len(),
                names@.map_values(|t: String| t@) == names_of(self.devices@).take(i as int),
            decreases self.devices@.len() - i,
        {
            let ghost before = names@;
            names.push(self.devices[i].name.clone());
            i = i + 1;
            proof {
                let f = |t: String| t@;
                assert(names@.map_values(f) =~= before.map_values(f).push(
                    self.devices@[i - 1].name@,
                ));
                assert(names_of(self.devices@).take(i as int) =~= names_of(self.devices@).take(
                    i - 1,
                ).push(self.devices@[i - 1].name@));
            }
        }
        proof {
            assert(names_of(self.devices@).take(i as int) =~= names_of(self.devices@));
        }
        let mut s = "known devices: ".to_owned();
        s.append(text::joined(&names, ", ").as_str());
        s
    }
}

/// The settings of the device that is asked for, with the file's top-level keys
/// below them; without a name those of the file's `default`, and without that
/// the top-level keys alone. `None` where the file does not define the device.
pub open spec fn profile_of(c: ConfigView, name: Option<Seq<char>>) -> Option<SettingsView> {
    match either(name, c.default_device) {
        None => Some(c.defaults),
        Some(name) => if c.devices.dom().contains(name) {
            Some(c.devices[name].over(c.defaults))
        } else {
            None
        },
    }
}

/// A device that a config file does not define.
#[derive(Debug)]
pub struct UnknownDevice {
    pub name: String,
    pub path: String,
    pub known: String,
}

impl UnknownDevice {
    pub open spec fn text(self) -> Seq<char> {
        "unknown device "@ + text::quoted_text(self.name@) + " in "@ + self.path@ + "; "@
            + self.known@
    }

    /// What is wrong, in words.
    pub fn message(&self) -> (s: String)
        ensures
            s@ == self.text(),
    {
        let mut s = "unknown device ".to_owned();
        s.append(text::quoted(self.name.as_str()).as_str());
        s.append(" in ");
        s.append(self.path.as_str());
        s.append("; ");
        s.append(self.known.as_str());
        s
    }
}

pub open spec fn str_of(s: Option<&str>) -> Option<Seq<char>> {
    match s {
        Some(s) => Some(s@),
        None => None,
    }
}

impl FileConfig {
    /// The profile to use, inheriting the file's top-level keys. `name` is
    /// `--device`; without it the file's `default` applies, and without that
    /// the top-level keys are the whole configuration.
    pub fn profile(&self, name: Option<&str>) -> (r: Result<Settings, UnknownDevice>)
        requires
            self.wf(),
        ensures
            r is Ok <==> profile_of(self@, str_of(name)) is Some,
            r matches Ok(p) ==> p@ == profile_of(self@, str_of(name))->0,
            r matches Err(e) ==> {
                &&& Some(e.name@) == either(str_of(name), self@.default_device)
                &&& e.path@ == self.path()
                &&& e.known@ == known_devices(listing(self@.devices.dom()))
            },
    {
        let wanted = match name {
            Some(name) => name,
            None => match &self.default_device {
                Some(name) => name.as_str(),
                None => return Ok(self.defaults.clone()),
            },
        };
        let cs = text::chars(wanted);
        let (i, found) = place(&self.devices, cs.as_slice());
        if found {
            proof {
                lemma_device_map(self.devices@);
                assert(self.devices@[i as int].name@ == wanted@);
            }
            Ok(self.devices[i].settings.or(&self.defaults))
        } else {
            proof {
                lemma_names_list(self.devices@);
            }
            Err(
                UnknownDevice {
                    name: text::string(cs.as_slice()),
                    path: self.path.clone(),
                    known: self.device_names(),
                },
            )
        }
    }

    /// The names that are reported are those of the sections, in order.
    pub proof fn names_are_listed(self)
        requires
            self.wf(),
        ensures
            self.names() == listing(self@.devices.dom()),
            lists(self.names(), self@.devices.dom()),
    {
        lemma_names_list(self.devices@);
    }
}

/// A config file that is accepted always has a profile to use when no device is
/// named: its `default` names a section that exists.
pub proof fn default_profile_exists(text: Seq<char>, endpoints: Seq<Endpoint>)
    requires
        config_of(text, endpoints) is Ok,
    ensures
        profile_of(config_of(text, endpoints)->Ok_0, None) is Some,
{
}

/// A section inherits every key that it does not set itself, and the keys that
/// it does set win.
pub proof fn section_inherits(c: ConfigView, name: Seq<char>)
    requires
        c.devices.dom().contains(name),
    ensures
        profile_of(c, Some(name)) matches Some(p) && {
            let own = c.devices[name];
            &&& p.connect.addr == (if own.connect.addr is Some {
                own.connect.addr
            } else {
                c.defaults.connect.addr
            })
            &&& p.connect.index == (if own.connect.index is Some {
                own.connect.index
            } else {
                c.defaults.connect.index
            })
            &&& p.connect.interval == (if own.connect.interval is Some {
                own.connect.interval
            } else {
                c.defaults.connect.interval
            })
            &&& p.socket == (if own.socket is Some {
                own.socket
            } else {
                c.defaults.socket
            })
            &&& p.socket_mode == (if own.socket_mode is Some {
                own.socket_mode
            } else {
                c.defaults.socket_mode
            })
            &&& p.metrics_listen == (if own.metrics_listen is Some {
                own.metrics_listen
            } else {
                c.defaults.metrics_listen
            })
        },
{
}

/// Entering a section that was left keeps what it said: two headers of the same
/// name make one section.
pub proof fn reentering_a_section_keeps_it(
    st: State,
    raw: Seq<char>,
    n: nat,
    endpoints: Seq<Endpoint>,
)
    requires
        line_of(raw) is Section,
        st.config.devices.dom().contains(line_of(raw)->Section_0),
    ensures
        step(st, raw, n, endpoints) == Ok::<State, ConfigErrorView>(
            State { section: Some(line_of(raw)->Section_0), ..st },
        ),
{
}

/// The section that keys are read into exists from its header on.
pub proof fn section_exists(lines: Seq<Seq<char>>, endpoints: Seq<Endpoint>)
    requires
        read_lines(lines, endpoints) is Ok,
    ensures
        read_lines(lines, endpoints)->Ok_0.section matches Some(name) ==> read_lines(
            lines,
            endpoints,
        )->Ok_0.config.devices.dom().contains(name),
    decreases lines.len(),
{
    if lines.len() > 0 {
        section_exists(lines.drop_last(), endpoints);
    }
}

/// The values that lines give for `metrics_listen`.
pub open spec fn listen_values_of(lines: Seq<Seq<char>>) -> Seq<Seq<char>>
    decreases lines.len(),
{
    if lines.len() == 0 {
        Seq::empty()
    } else {
        let rest = listen_values_of(lines.drop_first());
        match line_of(lines[0]) {
            Line::Pair(key, value) if key == "metrics_listen"@ => seq![value] + rest,
            _ => rest,
        }
    }
}

/// The values that a config file gives for `metrics_listen`, as it spells them:
/// what `parse_config` has to be told the usual form of.
pub fn listen_values(text: &str) -> (r: Vec<String>)
    ensures
        r@.map_values(|t: String| t@) == listen_values_of(text::lines(text@)),
{
    let cs = text::chars(text);
    let mut rest: &[char] = cs.as_slice();
    let mut r: Vec<String> = Vec::new();
    let ghost f = |t: String| t@;
    let ghost all = listen_values_of(text::lines(text@));
    proof {
        assert(r@.map_values(f) + all =~= all);
    }
    while rest.len() > 0
        invariant
            f == (|t: String| t@),
            all == listen_values_of(text::lines(text@)),
            all == r@.map_values(f) + listen_values_of(text::lines(rest@)),
        decreases rest@.len(),
    {
        let (raw, after) = text::next_line(rest);
        let ghost before = r@;
        proof {
            assert(text::lines(rest@)[0] == raw@);
            assert(text::lines(rest@).drop_first() =~= text::lines(after@));
        }
        let line = text::trimmed(raw);
        if line.len() > 0 && line[0] != '#' && line[0] != '[' {
            let i: usize = text::position(line, '=');
            if i < line.len() {
                proof {
                    assert(line@.take(i as int) =~= line@.subrange(0, i as int));
                    assert(line@.skip(i + 1) =~= line@.subrange(i + 1, line@.len() as int));
                }
                let key = text::trimmed(slice_subrange(line, 0, i));
                if text::is_word(key, "metrics_listen") {
                    let value = inside_quotes(
                        text::trimmed(slice_subrange(line, i + 1, line.len())),
                    );
                    r.push(text::string(value));
                    proof {
                        assert(r@.map_values(f) =~= before.map_values(f).push(value@));
                        let more = listen_values_of(text::lines(after@));
                        assert(before.map_values(f) + (seq![value@] + more) =~= r@.map_values(f)
                            + more);
                    }
                }
            }
        }
        rest = after;
    }
    proof {
        assert(all =~= r@.map_values(f));
    }
    r
}

/// The place that an error names.
pub open spec fn place_text(path: Seq<char>, line: nat) -> Seq<char> {
    path + seq![':'] + text::decimal(line) + ": "@
}

impl ConfigErrorView {
    /// What is wrong with the file at `path`, in words.
    pub open spec fn text(self, path: Seq<char>) -> Seq<char> {
        let place = place_text(path, self.line);
        match self.kind {
            ConfigErrorKind::UnterminatedSection => place + "unterminated section header: "@
                + self.text,
            ConfigErrorKind::UnknownSection => place + "unknown section ["@ + self.text
                + "]; only [devices.<name>] is understood"@,
            ConfigErrorKind::UnnamedSection => place
                + "a [devices.<name>] section needs a name"@,
            ConfigErrorKind::NotAPair => place + "expected `key = value`, got: "@ + self.text,
            ConfigErrorKind::MisplacedDefault => place
                + "`default` belongs before the first [devices.<name>] section"@,
            ConfigErrorKind::InvalidIndex(_) => place + "invalid index: "@ + self.text,
            ConfigErrorKind::InvalidInterval(_) => place + "invalid interval"@,
            ConfigErrorKind::InvalidAddr(e) => place + "invalid addr "@ + self.text + ": "@
                + e.text(),
            ConfigErrorKind::InvalidSocketMode => place + "invalid socket_mode: "@ + self.text,
            ConfigErrorKind::InvalidMetricsListen => place + "invalid metrics_listen: "@
                + self.text,
            ConfigErrorKind::UnknownKey => place + "unknown key: "@ + self.text,
            ConfigErrorKind::UnknownDefault => path + ": default = "@ + text::quoted_text(
                self.text,
            ) + " names no [devices."@ + self.text + "] section; "@ + self.known,
        }
    }

    /// What made the value unusable, where that is worth saying.
    pub open spec fn cause(self) -> Option<Seq<char>> {
        match self.kind {
            ConfigErrorKind::InvalidIndex(e) => Some(addr::int_error_text(e)),
            ConfigErrorKind::InvalidInterval(e) => Some(e.text(self.text)),
            ConfigErrorKind::InvalidMetricsListen => Some("invalid socket address syntax"@),
            _ => None,
        }
    }
}

impl ConfigError {
    /// What is wrong with the file at `path`, in words.
    pub fn message(&self, path: &str) -> (s: String)
        ensures
            s@ == self@.text(path@),
    {
        let mut s = path.to_owned();
        if matches!(self.kind, ConfigErrorKind::UnknownDefault) {
            s.append(": default = ");
            s.append(text::quoted(self.text.as_str()).as_str());
            s.append(" names no [devices.");
            s.append(self.text.as_str());
            s.append("] section; ");
            s.append(self.known.as_str());
            return s;
        }
        s.push(':');
        s.append(text::decimal_string(self.line as u64).as_str());
        s.append(": ");
        proof {
            assert(s@ =~= place_text(path@, self.line as nat));
        }
        match self.kind {
            ConfigErrorKind::UnterminatedSection => {
                s.append("unterminated section header: ");
                s.append(self.text.as_str());
            },
            ConfigErrorKind::UnknownSection => {
                s.append("unknown section [");
                s.append(self.text.as_str());
                s.append("]; only [devices.<name>] is understood");
            },
            ConfigErrorKind::UnnamedSection => s.append("a [devices.<name>] section needs a name"),
            ConfigErrorKind::NotAPair => {
                s.append("expected `key = value`, got: ");
                s.append(self.text.as_str());
            },
            ConfigErrorKind::MisplacedDefault => s.append(
                "`default` belongs before the first [devices.<name>] section",
            ),
            ConfigErrorKind::InvalidIndex(_) => {
                s.append("invalid index: ");
                s.append(self.text.as_str());
            },
            ConfigErrorKind::InvalidInterval(_) => s.append("invalid interval"),
            ConfigErrorKind::InvalidAddr(e) => {
                s.append("invalid addr ");
                s.append(self.text.as_str());
                s.append(": ");
                s.append(e.message().as_str());
            },
            ConfigErrorKind::InvalidSocketMode => {
                s.append("invalid socket_mode: ");
                s.append(self.text.as_str());
            },
            ConfigErrorKind::InvalidMetricsListen => {
                s.append("invalid metrics_listen: ");
                s.append(self.text.as_str());
            },
            ConfigErrorKind::UnknownKey => {
                s.append("unknown key: ");
                s.append(self.text.as_str());
            },
            ConfigErrorKind::UnknownDefault => {},
        }
        s
    }

    /// What made the value unusable, where that is worth saying.
    pub fn cause(&self) -> (r: Option<String>)
        ensures
            text_of(r) == self@.cause(),
    {
        match self.kind {
            ConfigErrorKind::InvalidIndex(e) => Some(addr::int_error_message(e)),
            ConfigErrorKind::InvalidInterval(e) => Some(e.message(self.text.as_str())),
            ConfigErrorKind::InvalidMetricsListen => Some(
                "invalid socket address syntax".to_owned(),
            ),
            _ => None,
        }
    }
}

/// What a key can be set to.
pub enum Value {
    Index(usize),
    Period(u64),
    Addr(BDAddr),
    Text(Seq<char>),
    Mode(SocketMode),
}

/// What settings say under a key.
pub open spec fn setting(p: SettingsView, key: Seq<char>) -> Option<Value> {
    if key == "index"@ && p.connect.index is Some {
        Some(Value::Index(p.connect.index->0))
    } else if key == "interval"@ && p.connect.interval is Some {
        Some(Value::Period(p.connect.interval->0.nanos()))
    } else if key == "addr"@ && p.connect.addr is Some {
        Some(Value::Addr(p.connect.addr->0))
    } else if key == "socket"@ && p.socket is Some {
        Some(Value::Text(p.socket->0))
    } else if key == "socket_mode"@ && p.socket_mode is Some {
        Some(Value::Mode(p.socket_mode->0))
    } else if key == "metrics_listen"@ && p.metrics_listen is Some {
        Some(Value::Text(p.metrics_listen->0))
    } else {
        None
    }
}

/// What a key means that is given as `value`, where that is anything at all.
pub open spec fn meaning(key: Seq<char>, value: Seq<char>, endpoints: Seq<Endpoint>) -> Option<
    Value,
> {
    if key == "index"@ {
        match text::unsigned(value, 10, usize::MAX as nat) {
            Ok(n) => Some(Value::Index(n as usize)),
            Err(_) => None,
        }
    } else if key == "interval"@ {
        match interval::parsed(value) {
            Ok(n) => Some(Value::Period(n)),
            Err(_) => None,
        }
    } else if key == "addr"@ {
        match addr::parsed(value) {
            Ok(a) => Some(Value::Addr(a)),
            Err(_) => None,
        }
    } else if key == "socket"@ {
        Some(Value::Text(value))
    } else if key == "socket_mode"@ {
        match mode_bits(value) {
            Some(m) => Some(Value::Mode(m)),
            None => None,
        }
    } else if key == "metrics_listen"@ {
        match canonical(endpoints, value) {
            Some(a) => Some(Value::Text(a)),
            None => None,
        }
    } else {
        None
    }
}

proof fn lemma_keys_differ()
    ensures
        "index"@ != "interval"@,
        "index"@ != "addr"@,
        "index"@ != "socket"@,
        "index"@ != "socket_mode"@,
        "index"@ != "metrics_listen"@,
        "interval"@ != "addr"@,
        "interval"@ != "socket"@,
        "interval"@ != "socket_mode"@,
        "interval"@ != "metrics_listen"@,
        "addr"@ != "socket"@,
        "addr"@ != "socket_mode"@,
        "addr"@ != "metrics_listen"@,
        "socket"@ != "socket_mode"@,
        "socket"@ != "metrics_listen"@,
        "socket_mode"@ != "metrics_listen"@,
{
    reveal_strlit("index");
    reveal_strlit("interval");
    reveal_strlit("addr");
    reveal_strlit("socket");
    reveal_strlit("socket_mode");
    reveal_strlit("metrics_listen");
    assert("index"@.len() == 5 && "interval"@.len() == 8 && "addr"@.len() == 4 && "socket"@.len()
        == 6 && "socket_mode"@.len() == 11 && "metrics_listen"@.len() == 14);
}

/// Assigning a key sets it to what its value means, and leaves every other key as
/// it was; it is refused just where the value means nothing.
pub proof fn assigning_sets_one_key(
    p: SettingsView,
    key: Seq<char>,
    value: Seq<char>,
    endpoints: Seq<Endpoint>,
    other: Seq<char>,
)
    ensures
        assigned(p, key, value, endpoints) is Ok <==> meaning(key, value, endpoints) is Some,
        assigned(p, key, value, endpoints) matches Ok(q) ==> {
            &&& setting(q, key) == meaning(key, value, endpoints)
            &&& other != key ==> setting(q, other) == setting(p, other)
        },
{
    broadcast use Interval::of_nanos;

    lemma_keys_differ();
}

/// The section that is open after `lines`: that of the last header among them.
pub open spec fn open_section(lines: Seq<Seq<char>>) -> Option<Seq<char>>
    decreases lines.len(),
{
    if lines.len() == 0 {
        None
    } else {
        match line_of(lines.last()) {
            Line::Section(name) => Some(name),
            _ => open_section(lines.drop_last()),
        }
    }
}

/// Whether the line at `i` gives a value for `key` to the section `at`, or to the
/// file where that is `None`.
pub open spec fn gives(lines: Seq<Seq<char>>, i: int, at: Option<Seq<char>>, key: Seq<char>) -> bool {
    &&& line_of(lines[i]) matches Line::Pair(k, _) && k == key
    &&& open_section(lines.take(i)) == at
}

/// What a config says of the section `at`, or outside of any where that is
/// `None`.
pub open spec fn settings_at(c: ConfigView, at: Option<Seq<char>>) -> Option<SettingsView> {
    match at {
        None => Some(c.defaults),
        Some(name) => if c.devices.dom().contains(name) {
            Some(c.devices[name])
        } else {
            None
        },
    }
}

/// What one more line does, seen from one key of one section: it opens another
/// section, or gives the key another value, or leaves the key as it was. The
/// default device is changed by its own line alone, and that line changes nothing
/// else.
#[verifier::rlimit(40)]
pub proof fn a_line_changes_only_what_it_names(
    st: State,
    raw: Seq<char>,
    n: nat,
    endpoints: Seq<Endpoint>,
    at: Option<Seq<char>>,
    key: Seq<char>,
)
    requires
        step(st, raw, n, endpoints) is Ok,
        st.section matches Some(name) ==> st.config.devices.dom().contains(name),
    ensures
        ({
            let next = step(st, raw, n, endpoints)->Ok_0;
            let (old_at, new_at) = (settings_at(st.config, at), settings_at(next.config, at));
            let line = line_of(raw);
            let is_default = line matches Line::Pair(k, _) && k == "default"@;
            let gives_it = st.section == at && key != "default"@ && (line matches Line::Pair(k, _)
                && k == key);
            &&& next.section == (match line {
                Line::Section(name) => Some(name),
                _ => st.section,
            })
            &&& next.config.default_device == (if is_default {
                Some(line->Pair_1)
            } else {
                st.config.default_device
            })
            &&& is_default ==> st.section is None && next.config.defaults == st.config.defaults
                && next.config.devices == st.config.devices
            &&& gives_it ==> new_at is Some && setting(new_at->0, key) == meaning(
                key,
                line->Pair_1,
                endpoints,
            )
            &&& !gives_it && old_at is Some ==> new_at is Some && setting(new_at->0, key)
                == setting(old_at->0, key)
            &&& old_at is None ==> (new_at is Some <==> (line is Section && at == Some(
                line->Section_0,
            )))
            &&& old_at is None && new_at is Some ==> setting(new_at->0, key) is None
            &&& forall|name: Seq<char>| #[trigger]
                next.config.devices.dom().contains(name) <==> st.config.devices.dom().contains(
                    name,
                ) || (line is Section && line->Section_0 == name)
        }),
{
    if let Line::Pair(k, v) = line_of(raw) {
        if k != "default"@ {
            let p = settings_at(st.config, st.section)->0;
            assigning_sets_one_key(p, k, v, endpoints, key);
        }
    }
}

/// Each key says, in each section and outside of any, what the last line that
/// gives it there says, whatever other lines stand between; where no line gives
/// it, it says nothing. The sections are those that have a header, the default
/// device is that of the last `default` line, and the section that is open is
/// that of the last header.
#[verifier::rlimit(40)]
pub proof fn the_last_line_that_gives_a_key_counts(
    lines: Seq<Seq<char>>,
    endpoints: Seq<Endpoint>,
    at: Option<Seq<char>>,
    key: Seq<char>,
    i: int,
)
    requires
        read_lines(lines, endpoints) is Ok,
        key != "default"@,
        -1 <= i < lines.len(),
        i >= 0 ==> gives(lines, i, at, key),
        forall|j: int| i < j < lines.len() ==> !#[trigger] gives(lines, j, at, key),
    ensures
        ({
            let st = read_lines(lines, endpoints)->Ok_0;
            &&& st.section == open_section(lines)
            &&& st.section matches Some(name) ==> st.config.devices.dom().contains(name)
            &&& i >= 0 ==> settings_at(st.config, at) is Some && setting(
                settings_at(st.config, at)->0,
                key,
            ) == meaning(key, line_of(lines[i])->Pair_1, endpoints)
            &&& i < 0 && settings_at(st.config, at) is Some ==> setting(
                settings_at(st.config, at)->0,
                key,
            ) is None
        }),
    decreases lines.len(),
{
    if lines.len() > 0 {
        let rest = lines.drop_last();
        let last = lines.len() - 1;
        assert(forall|j: int| 0 <= j < rest.len() ==> #[trigger] rest.take(j) =~= lines.take(j));
        assert(lines.take(last) =~= rest);
        let earlier = if i < last {
            i
        } else {
            last_giving(rest, at, key)
        };
        if i == last {
            lemma_last_giving(rest, at, key);
        }
        assert forall|j: int| earlier < j < rest.len() implies !#[trigger] gives(
            rest,
            j,
            at,
            key,
        ) by {
            if i < last {
                assert(rest.take(j) =~= lines.take(j));
                assert(!gives(lines, j, at, key));
            }
        }
        if 0 <= earlier && i < last {
            assert(rest.take(earlier) =~= lines.take(earlier));
        }
        the_last_line_that_gives_a_key_counts(rest, endpoints, at, key, earlier);
        let st = read_lines(rest, endpoints)->Ok_0;
        a_line_changes_only_what_it_names(st, lines.last(), lines.len(), endpoints, at, key);
        assert(gives(lines, last, at, key) == (i == last));
    } else {
        assert(setting(SettingsView::nothing(), key) is None);
    }
}

/// The last of `lines` that gives `key` to `at`, or one before the first.
spec fn last_giving(lines: Seq<Seq<char>>, at: Option<Seq<char>>, key: Seq<char>) -> int
    decreases lines.len(),
{
    if lines.len() == 0 {
        -1
    } else if gives(lines, lines.len() - 1, at, key) {
        lines.len() - 1
    } else {
        last_giving(lines.drop_last(), at, key)
    }
}

proof fn lemma_last_giving(lines: Seq<Seq<char>>, at: Option<Seq<char>>, key: Seq<char>)
    ensures
        -1 <= last_giving(lines, at, key) < lines.len(),
        last_giving(lines, at, key) >= 0 ==> gives(lines, last_giving(lines, at, key), at, key),
        forall|j: int|
            last_giving(lines, at, key) < j < lines.len() ==> !#[trigger] gives(lines, j, at, key),
    decreases lines.len(),
{
    if lines.len() > 0 && !gives(lines, lines.len() - 1, at, key) {
        let rest = lines.drop_last();
        lemma_last_giving(rest, at, key);
        let k = last_giving(rest, at, key);
        if k >= 0 {
            assert(rest.take(k) =~= lines.take(k));
        }
        assert forall|j: int| k < j < lines.len() implies !#[trigger] gives(lines, j, at, key) by {
            if j < rest.len() {
                assert(rest.take(j) =~= lines.take(j));
                assert(!gives(rest, j, at, key));
            }
        }
    }
}

/// The sections of a config are those that have a header, and its default device
/// is that of the last `default` line, if there is one.
#[verifier::rlimit(40)]
pub proof fn headers_make_the_sections(
    lines: Seq<Seq<char>>,
    endpoints: Seq<Endpoint>,
    name: Seq<char>,
)
    requires
        read_lines(lines, endpoints) is Ok,
    ensures
        ({
            let c = read_lines(lines, endpoints)->Ok_0.config;
            &&& c.devices.dom().contains(name) <==> exists|i: int|
                0 <= i < lines.len() && line_of(#[trigger] lines[i]) == Line::Section(name)
            &&& forall|i: int|
                0 <= i < lines.len() && gives(lines, i, None, "default"@) && (forall|j: int|
                    i < j < lines.len() ==> !#[trigger] gives(lines, j, None, "default"@))
                    ==> c.default_device == Some(line_of(#[trigger] lines[i])->Pair_1)
            &&& (forall|j: int|
                0 <= j < lines.len() ==> !#[trigger] gives(lines, j, None, "default"@))
                ==> c.default_device is None
        }),
    decreases lines.len(),
{
    if lines.len() > 0 {
        let rest = lines.drop_last();
        let last = lines.len() - 1;
        let st = read_lines(rest, endpoints)->Ok_0;
        headers_make_the_sections(rest, endpoints, name);
        section_exists(rest, endpoints);
        a_line_changes_only_what_it_names(st, lines.last(), lines.len(), endpoints, None, name);
        lemma_section_is_open(rest, endpoints);
        assert(lines.take(last) =~= rest);
        let c = read_lines(lines, endpoints)->Ok_0.config;
        assert(c.devices.dom().contains(name) <==> exists|i: int|
            0 <= i < lines.len() && line_of(#[trigger] lines[i]) == Line::Section(name)) by {
            if st.config.devices.dom().contains(name) {
                let i = choose|i: int|
                    0 <= i < rest.len() && line_of(#[trigger] rest[i]) == Line::Section(name);
                assert(lines[i] == rest[i]);
            }
            if line_of(lines.last()) == Line::Section(name) {
                assert(lines[last] == lines.last());
            }
            if exists|i: int| 0 <= i < lines.len() && line_of(#[trigger] lines[i]) == Line::Section(
                name,
            ) {
                let i = choose|i: int|
                    0 <= i < lines.len() && line_of(#[trigger] lines[i]) == Line::Section(name);
                if i < last {
                    assert(rest[i] == lines[i]);
                }
            }
        }
        assert forall|j: int| 0 <= j < rest.len() implies #[trigger] gives(
            rest,
            j,
            None,
            "default"@,
        ) == gives(lines, j, None, "default"@) by {
            assert(rest.take(j) =~= lines.take(j));
        }
        let is_default = line_of(lines.last()) matches Line::Pair(k, _) && k == "default"@;
        assert(gives(lines, last, None, "default"@) == is_default);
        assert forall|i: int|
            0 <= i < lines.len() && gives(lines, i, None, "default"@) && (forall|j: int|
                i < j < lines.len() ==> !#[trigger] gives(lines, j, None, "default"@)) implies c.default_device == Some(
            line_of(#[trigger] lines[i])->Pair_1,
        ) by {
            if i < last {
                assert(!gives(lines, last, None, "default"@));
                assert(gives(rest, i, None, "default"@));
                assert(rest[i] == lines[i]);
                assert forall|j: int| i < j < rest.len() implies !#[trigger] gives(
                    rest,
                    j,
                    None,
                    "default"@,
                ) by {
                    assert(!gives(lines, j, None, "default"@));
                }
            }
        }
        if forall|j: int| 0 <= j < lines.len() ==> !#[trigger] gives(lines, j, None, "default"@) {
            assert(!gives(lines, last, None, "default"@));
            assert forall|j: int| 0 <= j < rest.len() implies !#[trigger] gives(
                rest,
                j,
                None,
                "default"@,
            ) by {
                assert(!gives(lines, j, None, "default"@));
            }
        }
    }
}

proof fn lemma_section_is_open(lines: Seq<Seq<char>>, endpoints: Seq<Endpoint>)
    requires
        read_lines(lines, endpoints) is Ok,
    ensures
        read_lines(lines, endpoints)->Ok_0.section == open_section(lines),
    decreases lines.len(),
{
    if lines.len() > 0 {
        lemma_section_is_open(lines.drop_last(), endpoints);
    }
}

/// What is reported of a file is its first line that is wrong: all before it can
/// be read, and with it the file cannot.
pub proof fn the_first_wrong_line_is_reported(lines: Seq<Seq<char>>, endpoints: Seq<Endpoint>)
    requires
        read_lines(lines, endpoints) is Err,
    ensures
        ({
            let e = read_lines(lines, endpoints)->Err_0;
            &&& 1 <= e.line <= lines.len()
            &&& read_lines(lines.take(e.line - 1), endpoints) is Ok
            &&& read_lines(lines.take(e.line as int), endpoints) is Err
        }),
    decreases lines.len(),
{
    if lines.len() > 0 {
        let rest = lines.drop_last();
        assert(lines.take(lines.len() as int) =~= lines);
        assert(lines.take(lines.len() - 1) =~= rest);
        if read_lines(rest, endpoints) is Err {
            the_first_wrong_line_is_reported(rest, endpoints);
            let k = read_lines(rest, endpoints)->Err_0.line as int;
            assert(rest.take(k - 1) =~= lines.take(k - 1));
            assert(rest.take(k) =~= lines.take(k));
        }
    }
}

/// A device that is named is the one whose settings are used, whatever the
/// file's `default` says; without a name it is that of the `default`, and without
/// that the keys outside of any section are all there is.
pub proof fn a_named_device_beats_the_default(c: ConfigView, name: Seq<char>)
    ensures
        profile_of(c, Some(name)) == profile_of(
            (ConfigView { default_device: None, ..c }),
            Some(name),
        ),
        c.default_device == Some(name) ==> profile_of(c, None) == profile_of(c, Some(name)),
        c.default_device is None ==> profile_of(c, None) == Some(c.defaults),
        profile_of(c, Some(name)) is Some <==> c.devices.dom().contains(name),
{
}

/// A mode that is written out reads back as the same mode, in four digits.
pub proof fn mode_display_then_parse(m: SocketMode)
    requires
        m.bits <= 0o777,
    ensures
        mode_bits(m.text()) == Some(m),
        m.text().len() == 4,
{
    reveal_with_fuel(text::power, 4);
    text::lemma_number_reads_back(m.bits as nat, 8, 0o777);
    text::lemma_number_width(m.bits as nat, 8, 3);
    text::lemma_padding_keeps_the_number(text::number(m.bits as nat, 8), 4, 8, 0o777);
}

/// A line `key = value` gives the value for the key, whatever white space stands
/// around either, and one pair of quotes around the value is no part of it.
#[verifier::rlimit(40)]
pub proof fn a_pair_is_read_as_written(
    margin: Seq<char>,
    key: Seq<char>,
    before: Seq<char>,
    after: Seq<char>,
    value: Seq<char>,
    end: Seq<char>,
)
    requires
        text::blank(margin),
        text::blank(before),
        text::blank(after),
        text::blank(end),
        text::bare(key),
        text::bare(value),
        key.len() > 0,
        value.len() > 0,
        text::lacks(key, '='),
        key[0] != '#',
        key[0] != '[',
    ensures
        line_of(margin + (key + before + seq!['='] + after + value) + end) == Line::Pair(
            key,
            unquoted(value),
        ),
{
    let line = key + before + seq!['='] + after + value;
    assert(line[0] == key[0] && line.last() == value.last());
    text::white_space_around_makes_no_difference(margin, line, end);
    let left = key + before;
    assert forall|i: int| 0 <= i < left.len() implies #[trigger] left[i] != '=' by {
        if i >= key.len() {
            assert(text::is_space(before[i - key.len()]));
        } else {
            assert(key[i] != '=');
        }
    }
    text::lemma_found_behind(left, '=', after + value);
    assert(line =~= left + seq!['='] + (after + value));
    assert(line.take(left.len() as int) =~= left);
    assert(line.skip(left.len() as int + 1) =~= after + value);
    let none = Seq::<char>::empty();
    text::white_space_around_makes_no_difference(none, key, before);
    assert(none + key + before =~= left);
    text::white_space_around_makes_no_difference(after, value, none);
    assert(after + value + none =~= after + value);
}

/// One pair of quotes around a text is taken off, and a text without one stays as
/// it is.
pub proof fn one_pair_of_quotes_is_taken_off(s: Seq<char>)
    ensures
        unquoted(seq!['"'] + s + seq!['"']) == s,
        s.len() < 2 || s[0] != '"' || s.last() != '"' ==> unquoted(s) == s,
{
    let q = seq!['"'] + s + seq!['"'];
    assert(q.subrange(1, q.len() - 1) =~= s);
}

/// A line that holds nothing, or whose first character is a `#`, says nothing.
pub proof fn comments_say_nothing(margin: Seq<char>, rest: Seq<char>)
    requires
        text::blank(margin),
    ensures
        line_of(margin) is Nothing,
        line_of(margin + seq!['#'] + rest) is Nothing,
{
    let none = Seq::<char>::empty();
    text::white_space_around_makes_no_difference(margin, none, none);
    assert(margin + none + none =~= margin);
    let raw = margin + seq!['#'] + rest;
    text::trimming_takes_white_space_alone(raw);
    let t = text::trim(raw);
    let (a, b) = choose|a: Seq<char>, b: Seq<char>| #[trigger]
        text::blank(a) && #[trigger] text::blank(b) && raw == a + t + b;
    let n = margin.len() as int;
    assert(raw[n] == '#');
    if a.len() > n {
        assert(raw[n] == a[n]);
        assert(text::is_space(a[n]));
    }
    if a.len() < n {
        if t.len() > 0 {
            assert(raw[a.len() as int] == t[0]);
            assert(raw[a.len() as int] == margin[a.len() as int]);
            assert(text::is_space(margin[a.len() as int]));
        } else {
            assert(raw[n] == b[n - a.len()]);
            assert(text::is_space(b[n - a.len()]));
        }
    }
    if a.len() == n {
        if t.len() == 0 {
            assert(raw[n] == b[0]);
            assert(text::is_space(b[0]));
        } else {
            assert(raw[n] == t[0]);
        }
    }
}

/// A line `[devices.name]` opens the section of that name, whatever white space
/// stands inside the brackets, and one pair of quotes around the name is no part
/// of it.
pub proof fn a_header_names_its_section(
    before: Seq<char>,
    between: Seq<char>,
    name: Seq<char>,
    after: Seq<char>,
)
    requires
        text::blank(before),
        text::blank(between),
        text::blank(after),
        text::bare(name),
        unquoted(name).len() > 0,
    ensures
        line_of(seq!['['] + before + "devices."@ + between + name + after + seq![']'])
            == Line::Section(unquoted(name)),
{
    reveal_strlit("devices.");
    let word = "devices."@;
    let none = Seq::<char>::empty();
    let inner = word + between + name;
    let line = seq!['['] + before + word + between + name + after + seq![']'];
    assert(name.len() > 0);
    text::white_space_around_makes_no_difference(none, line, none);
    assert(none + line + none =~= line);
    let header = line.drop_first();
    assert(header.last() == ']');
    assert(header.drop_last() =~= before + inner + after);
    assert(inner[0] == 'd' && inner.last() == name.last());
    text::white_space_around_makes_no_difference(before, inner, after);
    assert(inner.take(8) =~= word);
    assert(inner.skip(8) =~= between + name);
    text::white_space_around_makes_no_difference(between, name, none);
    assert(between + name + none =~= between + name);
}

/// The permissions of a socket, given those that were set.
pub open spec fn permissions(set: Option<SocketMode>) -> SocketMode {
    match set {
        Some(m) => m,
        None => SocketMode { bits: 0o600 },
    }
}

/// A socket has the permissions that were set, and is its owner's alone, to read
/// and to write, where none were.
pub proof fn a_socket_is_private_unless_told(set: Option<SocketMode>, m: SocketMode)
    ensures
        permissions(Some(m)) == m,
        permissions(None).bits == 6 * 64,
        set is Some ==> Some(permissions(set)) == set,
{
}

/// Permissions are written as three octal digits: the owner's, the group's and
/// everybody else's, each the sum of four to read, two to write and one to
/// execute. Anything beyond them is refused.
pub proof fn permissions_are_octal(owner: nat, group: nat, others: nat, c: char)
    requires
        owner < 8,
        group < 8,
        others < 8,
    ensures
        mode_bits(
            seq![
                ('0' as u32 + owner) as char,
                ('0' as u32 + group) as char,
                ('0' as u32 + others) as char,
            ],
        ) == Some(SocketMode { bits: (64 * owner + 8 * group + others) as u32 }),
        mode_bits(Seq::empty()) is None,
        !('0' <= c <= '7') ==> mode_bits(seq![c]) is None,
        owner > 0 ==> mode_bits(
            seq![
                ('0' as u32 + owner) as char,
                ('0' as u32 + group) as char,
                ('0' as u32 + others) as char,
                '0',
            ],
        ) is None,
{
    let max = ALL_PERMISSIONS as nat;
    let (a, b) = (('0' as u32 + owner) as char, ('0' as u32 + group) as char);
    let d = ('0' as u32 + others) as char;
    let none = Seq::<char>::empty();
    text::numbers_are_written_from_the_left(0, owner, none, 8, max);
    text::numbers_are_written_from_the_left(0, group, none.push(a), 8, max);
    text::numbers_are_written_from_the_left(0, others, none.push(a).push(b), 8, max);
    text::numbers_are_written_from_the_left(0, 0, none.push(a).push(b).push(d), 8, max);
    assert(seq![a, b, d] =~= none.push(a).push(b).push(d));
    assert(seq![a, b, d, '0'] =~= none.push(a).push(b).push(d).push('0'));
    assert((owner * 8 + group) * 8 + others == 64 * owner + 8 * group + others);
    text::only_digits_are_read(none, c, 8, max);
    assert(seq![c] =~= none.push(c));
    assert(seq![c].drop_last() =~= none);
}

/// An address to listen on is taken in the usual form of the first endpoint that
/// is spelled so, and is none where no endpoint is.
pub proof fn the_first_endpoint_of_a_spelling_counts(endpoints: Seq<Endpoint>, value: Seq<char>)
    ensures
        canonical(endpoints, value) is None <==> forall|i: int|
            0 <= i < endpoints.len() ==> (#[trigger] endpoints[i]).spelling@ != value,
        canonical(endpoints, value) matches Some(c) ==> exists|i: int|
            0 <= i < endpoints.len() && (#[trigger] endpoints[i]).spelling@ == value
                && endpoints[i].canonical@ == c && forall|j: int|
                0 <= j < i ==> (#[trigger] endpoints[j]).spelling@ != value,
    decreases endpoints.len(),
{
    if endpoints.len() > 0 && endpoints[0].spelling@ != value {
        let rest = endpoints.drop_first();
        the_first_endpoint_of_a_spelling_counts(rest, value);
        if canonical(rest, value) is None {
            assert forall|i: int| 0 <= i < endpoints.len() implies (
            #[trigger] endpoints[i]).spelling@ != value by {
                if i > 0 {
                    assert(rest[i - 1] == endpoints[i]);
                }
            }
        } else {
            let i = choose|i: int|
                0 <= i < rest.len() && (#[trigger] rest[i]).spelling@ == value
                    && rest[i].canonical@ == canonical(rest, value)->0 && forall|j: int|
                    0 <= j < i ==> (#[trigger] rest[j]).spelling@ != value;
            assert(endpoints[i + 1] == rest[i]);
            assert forall|j: int| 0 <= j < i + 1 implies (#[trigger] endpoints[j]).spelling@
                != value by {
                if j > 0 {
                    assert(rest[j - 1] == endpoints[j]);
                }
            }
        }
    } else if endpoints.len() > 0 {
        assert(endpoints[0].spelling@ == value);
    }
}

/// What has to be known of addresses to listen on is what the lines that give one
/// say, in order, wherever they stand.
pub proof fn every_address_to_listen_on_is_asked_about(
    before: Seq<Seq<char>>,
    line: Seq<char>,
    after: Seq<Seq<char>>,
)
    ensures
        ({
            let all = listen_values_of(before + seq![line] + after);
            match line_of(line) {
                Line::Pair(key, value) if key == "metrics_listen"@ => all == listen_values_of(
                    before,
                ).push(value) + listen_values_of(after),
                _ => all == listen_values_of(before + after),
            }
        }),
    decreases before.len(),
{
    let lines = before + seq![line] + after;
    if before.len() == 0 {
        assert(lines.drop_first() =~= after);
        assert(before + after =~= after);
        assert(lines[0] == line);
        assert(listen_values_of(before) =~= Seq::<Seq<char>>::empty());
        if let Line::Pair(key, value) = line_of(line) {
            assert(listen_values_of(before).push(value) =~= seq![value]);
        }
    } else {
        let rest = before.drop_first();
        every_address_to_listen_on_is_asked_about(rest, line, after);
        assert(lines.drop_first() =~= rest + seq![line] + after);
        assert((before + after).drop_first() =~= rest + after);
        assert(lines[0] == before[0] && (before + after)[0] == before[0]);
        if let Line::Pair(key, value) = line_of(line) {
            let (x, y) = (listen_values_of(rest), listen_values_of(after));
            if let Line::Pair(k, v) = line_of(before[0]) {
                assert(seq![v] + (x.push(value) + y) =~= (seq![v] + x).push(value) + y);
            }
        }
    }
}

/// A file whose default names a device that it does not define is refused, and
/// the name is told; any other file that can be read line by line says what its
/// lines say.
pub proof fn a_default_has_to_name_a_device(text: Seq<char>, endpoints: Seq<Endpoint>)
    ensures
        read_lines(text::lines(text), endpoints) matches Ok(st) ==> {
            let bad = st.config.default_device matches Some(name)
                && !st.config.devices.dom().contains(name);
            &&& !bad ==> config_of(text, endpoints) == Ok::<ConfigView, ConfigErrorView>(st.config)
            &&& bad ==> config_of(text, endpoints) is Err
            &&& bad ==> config_of(text, endpoints)->Err_0.kind is UnknownDefault
            &&& bad ==> Some(config_of(text, endpoints)->Err_0.text) == st.config.default_device
            &&& bad ==> config_of(text, endpoints)->Err_0.line == 0
        },
        read_lines(text::lines(text), endpoints) matches Err(e) ==> config_of(text, endpoints)
            == Err::<ConfigView, ConfigErrorView>(e),
{
}

/// What is wrong with a value is told for the key that it was given for, and a
/// key that is none of those that are known is told itself.
pub proof fn a_wrong_value_is_told_for_its_key(
    p: SettingsView,
    key: Seq<char>,
    value: Seq<char>,
    endpoints: Seq<Endpoint>,
)
    ensures
        assigned(p, key, value, endpoints) matches Err(e) ==> {
            &&& e is InvalidIndex ==> key == "index"@
            &&& e is InvalidInterval ==> key == "interval"@
            &&& e is InvalidAddr ==> key == "addr"@
            &&& e is InvalidSocketMode ==> key == "socket_mode"@
            &&& e is InvalidMetricsListen ==> key == "metrics_listen"@
            &&& e is UnknownKey <==> key != "index"@ && key != "interval"@ && key != "addr"@ && key
                != "socket"@ && key != "socket_mode"@ && key != "metrics_listen"@
            &&& !(e is UnterminatedSection) && !(e is UnknownSection) && !(e is UnnamedSection)
            &&& !(e is NotAPair) && !(e is MisplacedDefault) && !(e is UnknownDefault)
        },
        assigned(p, "socket"@, value, endpoints) is Ok,
        key != "index"@ && key != "interval"@ && key != "addr"@ && key != "socket"@ && key
            != "socket_mode"@ && key != "metrics_listen"@ ==> assigned(p, key, value, endpoints)
            is Err,
{
    lemma_keys_differ();
}

} // verus!
