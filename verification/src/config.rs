//! Profiles and the configuration file that holds them.
//!
//! One file holds any number of named profiles plus the name of the default
//! one. Reading and writing it is the program's job; what a profile means,
//! which one is selected and how a host is canonicalized is decided here.

use vstd::prelude::*;
use crate::text::{
    chars_eq, chars_of, find_chars, find_from, join, join_strings, lower_all, lower_chars,
    slice_chars, str_eq, lemma_find_from, occurs_at, string_of, strip_trailing, strip_trailing_chars, trim, trim_str,
};

verus! {

/// Which API a profile talks to.
#[derive(Clone, Copy, Debug, PartialEq, Eq, Structural)]
pub enum Mode {
    /// A console on the LAN: `https://<host>/proxy/network/integration/v1`.
    Local,
    /// The account-wide Site Manager API: `https://api.ui.com`.
    Cloud,
}

impl Default for Mode {
    fn default() -> (r: Self)
        ensures
            r == Mode::Local,
    {
        Mode::Local
    }
}

pub open spec fn mode_label(m: Mode) -> Seq<char> {
    match m {
        Mode::Local => "local"@,
        Mode::Cloud => "cloud"@,
    }
}

impl Mode {
    /// How a mode is written: `local` or `cloud`.
    pub fn label(&self) -> (r: &'static str)
        ensures
            r@ == mode_label(*self),
    {
        match self {
            Mode::Local => "local",
            Mode::Cloud => "cloud",
        }
    }
}

/// A mode name that is none of the accepted spellings; carries the word as
/// it was compared (trimmed, lowercased).
#[derive(Debug)]
pub enum ModeError {
    Unknown(String),
}

/// The mode a word names, after trimming and ASCII lowercasing.
pub open spec fn mode_word(s: Seq<char>) -> Option<Mode> {
    let w = lower_all(trim(s));
    if w == "local"@ || w == "lan"@ || w == "console"@ {
        Some(Mode::Local)
    } else if w == "cloud"@ || w == "site-manager"@ || w == "sitemanager"@ || w == "ui"@ {
        Some(Mode::Cloud)
    } else {
        None
    }
}

fn word_is(w: &Vec<char>, lit: &str) -> (r: bool)
    ensures
        r == (w@ == lit@),
{
    chars_eq(w, &chars_of(lit))
}

/// Parse a mode, accepting the aliases the command line offers.
pub fn parse_mode(s: &str) -> (r: Result<Mode, ModeError>)
    ensures
        match r {
            Ok(m) => mode_word(s@) == Some(m),
            Err(ModeError::Unknown(w)) => mode_word(s@) is None && w@ == lower_all(trim(s@)),
        },
{
    let w = lower_chars(&trim_str(s));
    if word_is(&w, "local") || word_is(&w, "lan") || word_is(&w, "console") {
        Ok(Mode::Local)
    } else if word_is(&w, "cloud") || word_is(&w, "site-manager") || word_is(&w, "sitemanager")
        || word_is(&w, "ui") {
        Ok(Mode::Cloud)
    } else {
        Err(ModeError::Unknown(string_of(&w)))
    }
}

impl core::str::FromStr for Mode {
    type Err = ModeError;

    fn from_str(s: &str) -> (r: Result<Mode, ModeError>)
        ensures
            match r {
                Ok(m) => mode_word(s@) == Some(m),
                Err(ModeError::Unknown(w)) => mode_word(s@) is None && w@ == lower_all(trim(s@)),
            },
    {
        parse_mode(s)
    }
}

/// Why a host setting was refused.
#[derive(Debug, PartialEq, Eq)]
pub enum HostError {
    /// Nothing is left once scheme, spaces and slashes are removed.
    Empty,
    /// It carries a path, query, fragment or whitespace; holds the setting.
    NotAHost(String),
}

/// The characters a host setting must not carry.
pub open spec fn host_forbidden(c: char) -> bool {
    c == '/' || c == '?' || c == '#' || c == ' ' || c == '\t' || c == '\r' || c == '\n'
}

/// A host setting with its scheme and trailing slashes removed.
pub open spec fn host_of(h: Seq<char>) -> Seq<char> {
    let t = trim(h);
    let s = match find_from(t, "://"@, 0) {
        Some(i) => t.skip(i + 3),
        None => t,
    };
    strip_trailing(s, '/')
}

/// Canonicalize a console host: strip any scheme and trailing slashes, reject
/// a value carrying a path, query, fragment, or whitespace.
pub fn normalize_host(h: &str) -> (r: Result<String, HostError>)
    ensures
        match r {
            Ok(s) => s@ == host_of(h@) && s@.len() > 0 && forall|i: int|
                0 <= i < s@.len() ==> !host_forbidden(#[trigger] s@[i]),
            Err(HostError::Empty) => host_of(h@).len() == 0,
            Err(HostError::NotAHost(x)) => host_of(h@).len() > 0 && x@ == h@ && exists|i: int|
                0 <= i < host_of(h@).len() && host_forbidden(#[trigger] host_of(h@)[i]),
        },
{
    let t = trim_str(h);
    let sep = chars_of("://");
    proof {
        lemma_find_from(t@, sep@, 0);
        reveal_strlit("://");
    }
    let found = find_chars(&t, &sep);
    let s = if let Some(i) = found {
        assert(occurs_at(t@, sep@, i as int));
        assert(sep@.len() == 3);
        assert(i + 3 <= t.len());
        let from: usize = i + 3;
        slice_chars(&t, from, t.len())
    } else {
        t
    };
    assert(s@ == match find_from(trim(h@), "://"@, 0) {
        Some(i) => trim(h@).skip(i + 3),
        None => trim(h@),
    });
    let s = strip_trailing_chars(&s, '/');
    if s.len() == 0 {
        return Err(HostError::Empty);
    }
    let mut i: usize = 0;
    while i < s.len()
        invariant
            i <= s.len(),
            s@ == host_of(h@),
            forall|k: int| 0 <= k < i ==> !host_forbidden(#[trigger] s@[k]),
        decreases s.len() - i,
    {
        let c = s[i];
        if c == '/' || c == '?' || c == '#' || c == ' ' || c == '\t' || c == '\r' || c == '\n' {
            assert(host_forbidden(s@[i as int]));
            assert(host_forbidden(host_of(h@)[i as int]));
            return Err(HostError::NotAHost(string_of(&chars_of(h))));
        }
        i += 1;
    }
    Ok(string_of(&s))
}

/// Connection parameters for one UniFi console (or the cloud account).
#[derive(Clone, Debug)]
pub struct Profile {
    pub mode: Mode,
    /// Hostname or `host:port` of the console. Unused in cloud mode.
    pub host: String,
    /// API key from the console UI.
    pub api_key: String,
    /// Default site id or name for local commands.
    pub site: String,
    /// `None` means "use the mode default" (see [`Profile::insecure`]).
    pub insecure: Option<bool>,
    /// Output format; `None` means the global default.
    pub output: Option<String>,
}

impl Default for Profile {
    fn default() -> (r: Self)
        ensures
            r.mode == Mode::Local,
            r.host@.len() == 0,
            r.api_key@.len() == 0,
            r.site@.len() == 0,
            r.insecure is None,
            r.output is None,
    {
        Profile {
            mode: Mode::Local,
            host: String::new(),
            api_key: String::new(),
            site: String::new(),
            insecure: None,
            output: None,
        }
    }
}

/// Whether certificate verification is skipped for a profile.
pub open spec fn profile_insecure(p: Profile) -> bool {
    match p.mode {
        Mode::Local => match p.insecure {
            Some(b) => b,
            None => true,
        },
        Mode::Cloud => false,
    }
}

/// Why a profile cannot produce a request.
#[derive(Debug, PartialEq, Eq)]
pub enum ProfileError {
    MissingKey,
    MissingHost,
    BadHost(HostError),
}

/// An API key masked down to its last four characters.
pub open spec fn redacted_key(k: Seq<char>) -> Seq<char> {
    if k.len() == 0 {
        Seq::empty()
    } else if k.len() <= 4 {
        "****"@ + k
    } else {
        "****"@ + k.skip(k.len() - 4)
    }
}

/// Mask an API key down to its last 4 characters.
pub fn redact(key: &str) -> (r: String)
    ensures
        r@ == redacted_key(key@),
{
    let v = chars_of(key);
    if v.len() == 0 {
        return String::new();
    }
    let from: usize = if v.len() <= 4 { 0 } else { v.len() - 4 };
    let tail = slice_chars(&v, from, v.len());
    assert(from == 0 ==> v@.subrange(0, v@.len() as int) =~= v@);
    let mut out = String::from_str("****");
    out.append(string_of(&tail).as_str());
    out
}

impl Profile {
    /// A field-by-field copy.
    pub fn copy(&self) -> (r: Profile)
        ensures
            r == *self,
    {
        Profile {
            mode: self.mode,
            host: self.host.clone(),
            api_key: self.api_key.clone(),
            site: self.site.clone(),
            insecure: self.insecure,
            output: match &self.output {
                Some(s) => Some(s.clone()),
                None => None,
            },
        }
    }

    /// Effective TLS behaviour. Local consoles ship a self-signed certificate,
    /// so verification is skipped there by default; the cloud endpoint has a
    /// real certificate and is always verified.
    pub fn insecure(&self) -> (r: bool)
        ensures
            r == profile_insecure(*self),
    {
        match self.mode {
            Mode::Local => match self.insecure {
                Some(b) => b,
                None => true,
            },
            Mode::Cloud => false,
        }
    }

    /// Reject a profile that cannot produce a request.
    pub fn validate(&self) -> (r: Result<(), ProfileError>)
        ensures
            match r {
                Ok(()) => self.api_key@.len() > 0 && (self.mode == Mode::Local ==> (
                self.host@.len() > 0 && host_of(self.host@).len() > 0 && forall|i: int|
                    0 <= i < host_of(self.host@).len() ==> !host_forbidden(
                        #[trigger] host_of(self.host@)[i],
                    ))),
                Err(ProfileError::MissingKey) => self.api_key@.len() == 0,
                Err(ProfileError::MissingHost) => self.api_key@.len() > 0 && self.mode
                    == Mode::Local && self.host@.len() == 0,
                Err(ProfileError::BadHost(e)) => self.api_key@.len() > 0 && self.mode
                    == Mode::Local && self.host@.len() > 0 && match e {
                    HostError::Empty => host_of(self.host@).len() == 0,
                    HostError::NotAHost(x) => x@ == self.host@ && host_of(self.host@).len() > 0
                        && exists|i: int|
                        0 <= i < host_of(self.host@).len() && host_forbidden(
                            #[trigger] host_of(self.host@)[i],
                        ),
                },
            },
    {
        if self.api_key.as_str().is_empty() {
            return Err(ProfileError::MissingKey);
        }
        if self.mode == Mode::Local {
            if self.host.as_str().is_empty() {
                return Err(ProfileError::MissingHost);
            }
            match normalize_host(self.host.as_str()) {
                Ok(_) => {},
                Err(e) => {
                    return Err(ProfileError::BadHost(e));
                },
            }
        }
        Ok(())
    }

    /// A copy with the api key masked, for printing.
    pub fn redacted(&self) -> (r: Profile)
        ensures
            r.api_key@ == redacted_key(self.api_key@),
            r.mode == self.mode,
            r.host == self.host,
            r.site == self.site,
            r.insecure == self.insecure,
            r.output == self.output,
    {
        let mut p = self.copy();
        p.api_key = redact(self.api_key.as_str());
        p
    }
}

/// A character a host setting is made of when typed: a visible ASCII
/// character, or the blanks a careless paste brings along.
pub open spec fn typed_host_char(c: char) -> bool {
    (0x21 <= (c as u32) <= 0x7E) || c == ' ' || c == '\t' || c == '\r' || c == '\n'
}

proof fn lemma_trim_start_cut(s: Seq<char>) -> (k: int)
    ensures
        0 <= k <= s.len(),
        crate::text::trim_start(s) == s.skip(k),
    decreases s.len(),
{
    if s.len() > 0 && crate::text::unicode_whitespace(s[0]) {
        let k = lemma_trim_start_cut(s.drop_first());
        assert(s.drop_first().skip(k) =~= s.skip(k + 1));
        k + 1
    } else {
        assert(s.skip(0) =~= s);
        0
    }
}

proof fn lemma_trim_end_cut(s: Seq<char>) -> (k: int)
    ensures
        0 <= k <= s.len(),
        crate::text::trim_end(s) == s.take(k),
    decreases s.len(),
{
    if s.len() > 0 && crate::text::unicode_whitespace(s.last()) {
        let k = lemma_trim_end_cut(s.drop_last());
        assert(s.drop_last().take(k) =~= s.take(k));
        k
    } else {
        assert(s.take(s.len() as int) =~= s);
        s.len() as int
    }
}

proof fn lemma_strip_cut(s: Seq<char>, c: char) -> (k: int)
    ensures
        0 <= k <= s.len(),
        strip_trailing(s, c) == s.take(k),
    decreases s.len(),
{
    if s.len() > 0 && s.last() == c {
        let k = lemma_strip_cut(s.drop_last(), c);
        assert(s.drop_last().take(k) =~= s.take(k));
        k
    } else {
        assert(s.take(s.len() as int) =~= s);
        s.len() as int
    }
}

/// Every character of `host_of(h)` is a character of `h`.
proof fn lemma_host_of_from(h: Seq<char>)
    ensures
        forall|i: int| 0 <= i < host_of(h).len() ==> exists|j: int| 0 <= j < h.len() && h[j] == #[trigger] host_of(h)[i],
{
    let a = lemma_trim_start_cut(h);
    let ts = crate::text::trim_start(h);
    let b = lemma_trim_end_cut(ts);
    let t = trim(h);
    assert(t == h.skip(a).take(b));
    let (off, sv) = match find_from(t, "://"@, 0) {
        Some(i) => {
            lemma_find_from(t, "://"@, 0);
            (i + 3, t.skip(i + 3))
        },
        None => (0int, t),
    };
    assert(0 <= off <= t.len()) by {
        reveal_strlit("://");
    }
    assert(sv == t.skip(off)) by {
        if off == 0 {
            assert(t.skip(0) =~= t);
        }
    }
    let d = lemma_strip_cut(sv, '/');
    assert forall|i: int| 0 <= i < host_of(h).len() implies exists|j: int| 0 <= j < h.len() && h[j] == #[trigger] host_of(h)[i] by {
        assert(host_of(h)[i] == h[a + off + i]);
    }
}

/// Normalizing a host that normalization accepted gives it back unchanged,
/// for a setting typed as hosts are: visible ASCII and blanks.
pub proof fn law_normalize_host_is_idempotent(h: Seq<char>)
    requires
        forall|i: int| 0 <= i < h.len() ==> typed_host_char(#[trigger] h[i]),
        host_of(h).len() > 0,
        forall|i: int| 0 <= i < host_of(h).len() ==> !host_forbidden(#[trigger] host_of(h)[i]),
    ensures
        host_of(host_of(h)) == host_of(h),
{
    let s = host_of(h);
    lemma_host_of_from(h);
    assert forall|i: int| 0 <= i < s.len() implies 0x21 <= (#[trigger] s[i] as u32) <= 0x7E by {
        let j = choose|j: int| 0 <= j < h.len() && h[j] == s[i];
        assert(typed_host_char(h[j]));
        assert(!host_forbidden(s[i]));
    }
    assert(!crate::text::unicode_whitespace(s[0]));
    assert(!crate::text::unicode_whitespace(s.last()));
    assert(crate::text::trim_start(s) == s);
    assert(crate::text::trim_end(s) == s);
    lemma_find_from(s, "://"@, 0);
    assert(find_from(s, "://"@, 0) is None) by {
        reveal_strlit("://");
        if let Some(j) = find_from(s, "://"@, 0) {
            assert(s.subrange(j, j + 3) == "://"@);
            assert(s.subrange(j, j + 3)[1] == s[j + 1]);
            assert(!host_forbidden(s[j + 1]));
        }
    }
    assert(s.last() != '/');
}

/// A setting as a value: what the text holds.
pub open spec fn opt_view(o: Option<String>) -> Option<Seq<char>> {
    match o {
        Some(s) => Some(s@),
        None => None,
    }
}

/// What the command line and the environment set for one run. Each setting
/// is already resolved flag first, then environment ([`flag_or_env`]).
#[derive(Debug, Default)]
pub struct Overrides {
    pub host: Option<String>,
    pub api_key: Option<String>,
    pub site: Option<String>,
    pub mode: Option<String>,
    pub output: Option<String>,
    pub insecure: Option<bool>,
}

/// What the environment sets for a setting, given the values of its two
/// variables: `MLAB_UNIFI_<name>` first, then `UNIFI_<name>`; an empty value
/// counts as unset.
pub fn env_setting(mlab: Option<String>, unifi: Option<String>) -> (r: Option<String>)
    ensures
        opt_view(r) == if mlab matches Some(m) && m@.len() > 0 {
            opt_view(mlab)
        } else if unifi matches Some(u) && u@.len() > 0 {
            opt_view(unifi)
        } else {
            None
        },
{
    if let Some(m) = mlab {
        if !m.as_str().is_empty() {
            return Some(m);
        }
    }
    if let Some(u) = unifi {
        if !u.as_str().is_empty() {
            return Some(u);
        }
    }
    None
}

/// A setting from the command line where it was given there, else from the
/// environment: a flag always wins.
pub fn flag_or_env(flag: Option<String>, env: Option<String>) -> (r: Option<String>)
    ensures
        opt_view(r) == if flag is Some {
            opt_view(flag)
        } else {
            opt_view(env)
        },
{
    match flag {
        Some(f) => Some(f),
        None => env,
    }
}

/// The TLS choice of one run: `--insecure`, then `--secure`, then what the
/// environment says; nothing when none of them speaks.
pub fn tls_choice(insecure_flag: bool, secure_flag: bool, env: Option<bool>) -> (r: Option<bool>)
    ensures
        r == if insecure_flag {
            Some(true)
        } else if secure_flag {
            Some(false)
        } else {
            env
        },
{
    if insecure_flag {
        Some(true)
    } else if secure_flag {
        Some(false)
    } else {
        env
    }
}

fn take_or(over: &Option<String>, stored: &String) -> (r: String)
    ensures
        r@ == match over {
            Some(o) => o@,
            None => stored@,
        },
{
    match over {
        Some(o) => o.clone(),
        None => stored.clone(),
    }
}

impl Profile {
    /// The profile a run uses: every setting the command line or the
    /// environment gave replaces the stored one, and the rest stays as
    /// stored. A mode that names no mode is refused.
    pub fn overridden(&self, ov: &Overrides) -> (r: Result<Profile, ModeError>)
        ensures
            match r {
                Ok(p) => {
                    &&& p.mode == match ov.mode {
                        Some(m) => mode_word(m@)->0,
                        None => self.mode,
                    }
                    &&& p.host@ == match ov.host {
                        Some(h) => h@,
                        None => self.host@,
                    }
                    &&& p.api_key@ == match ov.api_key {
                        Some(k) => k@,
                        None => self.api_key@,
                    }
                    &&& p.site@ == match ov.site {
                        Some(x) => x@,
                        None => self.site@,
                    }
                    &&& p.insecure == if ov.insecure is Some {
                        ov.insecure
                    } else {
                        self.insecure
                    }
                    &&& p.output == self.output
                    &&& (ov.mode matches Some(m) ==> mode_word(m@) is Some)
                },
                Err(ModeError::Unknown(w)) => ov.mode matches Some(m) && mode_word(m@) is None && w@
                    == lower_all(trim(m@)),
            },
    {
        let mode = match &ov.mode {
            Some(m) => match parse_mode(m.as_str()) {
                Ok(x) => x,
                Err(e) => {
                    return Err(e);
                },
            },
            None => self.mode,
        };
        let insecure = if ov.insecure.is_some() {
            ov.insecure
        } else {
            self.insecure
        };
        let output = match &self.output {
            Some(o) => Some(o.clone()),
            None => None,
        };
        Ok(
            Profile {
                mode,
                host: take_or(&ov.host, &self.host),
                api_key: take_or(&ov.api_key, &self.api_key),
                site: take_or(&ov.site, &self.site),
                insecure,
                output,
            },
        )
    }
}

/// The first profile stored under `k`.
pub open spec fn profile_named(s: Seq<(String, Profile)>, k: Seq<char>) -> Option<Profile>
    decreases s.len(),
{
    if s.len() == 0 {
        None
    } else if s[0].0@ == k {
        Some(s[0].1)
    } else {
        profile_named(s.subrange(1, s.len() as int), k)
    }
}

proof fn lemma_profile_skip(s: Seq<(String, Profile)>, k: Seq<char>, i: int)
    requires
        0 <= i <= s.len(),
        forall|j: int| 0 <= j < i ==> s[j].0@ != k,
    ensures
        profile_named(s, k) == profile_named(s.subrange(i, s.len() as int), k),
    decreases i,
{
    if i > 0 {
        assert(s.subrange(1, s.len() as int).subrange(i - 1, s.len() - 1) =~= s.subrange(
            i,
            s.len() as int,
        ));
        lemma_profile_skip(s.subrange(1, s.len() as int), k, i - 1);
    } else {
        assert(s.subrange(0, s.len() as int) =~= s);
    }
}

/// The whole config file.
#[derive(Debug)]
pub struct ConfigFile {
    /// Name of the profile used when none is given.
    pub default_profile: Option<String>,
    /// The profiles, by name.
    pub profiles: Vec<(String, Profile)>,
}

impl Default for ConfigFile {
    fn default() -> (r: Self)
        ensures
            r.default_profile is None,
            r.profiles@.len() == 0,
    {
        ConfigFile { default_profile: None, profiles: Vec::new() }
    }
}

/// The view of an optional name.
pub open spec fn name_view(name: Option<&str>) -> Option<Seq<char>> {
    match name {
        Some(n) => Some(n@),
        None => None,
    }
}

/// Why no profile could be selected.
#[derive(Debug, PartialEq, Eq)]
pub enum ConfigError {
    /// No name given, no default set, and not exactly one profile.
    NoneSelected,
    /// The wanted profile is not in the file; `known` lists the names there,
    /// or reads `none`.
    NotFound { wanted: String, known: String },
}

impl ConfigFile {
    /// The profile names, in order.
    pub open spec fn names(&self) -> Seq<Seq<char>> {
        self.profiles@.map_values(|e: (String, Profile)| e.0@)
    }

    /// The name selected by `name`, or the default, or the only profile.
    pub open spec fn selected(&self, name: Option<Seq<char>>) -> Option<Seq<char>> {
        match name {
            Some(n) => Some(n),
            None => match self.default_profile {
                Some(d) => Some(d@),
                None => if self.profiles@.len() == 1 {
                    Some(self.profiles@[0].0@)
                } else {
                    None
                },
            },
        }
    }

    /// The profile stored under `k`.
    pub open spec fn lookup(&self, k: Seq<char>) -> Option<Profile> {
        profile_named(self.profiles@, k)
    }

    /// Store a profile as `login` does: add or replace it under `name`, and
    /// make it the default when asked to, when it is the first profile, or
    /// when no default is set.
    pub fn save_profile(&mut self, name: String, p: Profile, make_default: bool)
        ensures
            final(self).lookup(name@) == Some(p),
            forall|k: Seq<char>| k != name@ ==> final(self).lookup(k) == old(self).lookup(k),
            opt_view(final(self).default_profile) == if make_default || old(self).profiles@.len() == 0
                || old(self).default_profile is None {
                Some(name@)
            } else {
                opt_view(old(self).default_profile)
            },
    {
        let becomes_default = make_default || self.profiles.len() == 0 || self.default_profile.is_none();
        let key = name.clone();
        self.insert(name, p);
        if becomes_default {
            self.default_profile = Some(key);
        }
    }

    /// Make the profile stored under `name` the default; a name that holds no
    /// profile changes nothing and is answered `false`.
    pub fn set_default(&mut self, name: &str) -> (r: bool)
        ensures
            r == old(self).lookup(name@) is Some,
            final(self).profiles == old(self).profiles,
            opt_view(final(self).default_profile) == if r {
                Some(name@)
            } else {
                opt_view(old(self).default_profile)
            },
    {
        let ghost s = self.profiles@;
        let mut i: usize = 0;
        while i < self.profiles.len()
            invariant
                i <= self.profiles.len(),
                self.profiles@ == s,
                self.profiles == old(self).profiles,
                self.default_profile == old(self).default_profile,
                forall|j: int| 0 <= j < i ==> s[j].0@ != name@,
            decreases self.profiles.len() - i,
        {
            if str_eq(self.profiles[i].0.as_str(), name) {
                proof {
                    lemma_profile_skip(s, name@, i as int);
                    assert(s.subrange(i as int, s.len() as int)[0] == s[i as int]);
                }
                self.default_profile = Some(String::from_str(name));
                return true;
            }
            i += 1;
        }
        proof {
            lemma_profile_skip(s, name@, i as int);
        }
        false
    }

    /// Add or replace the profile stored under `name`.
    pub fn insert(&mut self, name: String, p: Profile)
        ensures
            final(self).default_profile == old(self).default_profile,
            final(self).lookup(name@) == Some(p),
            forall|k: Seq<char>| k != name@ ==> final(self).lookup(k) == old(self).lookup(k),
            old(self).lookup(name@) is Some ==> final(self).profiles@.len() == old(
                self,
            ).profiles@.len(),
            old(self).lookup(name@) is None ==> final(self).profiles@.len() == old(
                self,
            ).profiles@.len() + 1,
    {
        let ghost s = self.profiles@;
        let mut i: usize = 0;
        while i < self.profiles.len()
            invariant
                i <= self.profiles.len(),
                self.profiles@ == s,
                self.default_profile == old(self).default_profile,
                s == old(self).profiles@,
                forall|j: int| 0 <= j < i ==> s[j].0@ != name@,
            decreases self.profiles.len() - i,
        {
            if str_eq(self.profiles[i].0.as_str(), name.as_str()) {
                proof {
                    lemma_profile_skip(s, name@, i as int);
                }
                self.profiles.set(i, (name, p));
                proof {
                    let t = self.profiles@;
                    assert forall|k: Seq<char>| k != name@ implies profile_named(t, k)
                        == profile_named(s, k) by {
                        lemma_profile_skip_to(s, t, k, i as int);
                    }
                    lemma_profile_skip(t, name@, i as int);
                    assert(t.subrange(i as int, t.len() as int)[0] == t[i as int]);
                }
                return;
            }
            i += 1;
        }
        proof {
            lemma_profile_skip(s, name@, i as int);
        }
        self.profiles.push((name, p));
        proof {
            let t = self.profiles@;
            assert forall|k: Seq<char>| k != name@ implies profile_named(t, k) == profile_named(
                s,
                k,
            ) by {
                lemma_profile_push(s, t[i as int].0, p, k);
            }
            lemma_profile_skip(t, name@, i as int);
            assert(t.subrange(i as int, t.len() as int)[0] == t[i as int]);
        }
    }

    /// Resolve `name` (or the default profile when `None`).
    pub fn profile(&self, name: Option<&str>) -> (r: Result<(String, Profile), ConfigError>)
        ensures
            match r {
                Ok((w, p)) => self.selected(name_view(name)) == Some(w@) && self.lookup(w@) == Some(p),
                Err(ConfigError::NoneSelected) => name is None && self.default_profile is None
                    && self.profiles@.len() != 1,
                Err(ConfigError::NotFound { wanted, known }) => self.selected(name_view(name))
                    == Some(wanted@) && self.lookup(wanted@) is None && known@ == (if self.profiles@.len()
                    == 0 {
                    "none"@
                } else {
                    join(self.names(), ", "@)
                }),
            },
    {
        let wanted: String = match name {
            Some(n) => string_of(&chars_of(n)),
            None => match &self.default_profile {
                Some(d) => d.clone(),
                None => {
                    if self.profiles.len() == 1 {
                        self.profiles[0].0.clone()
                    } else {
                        return Err(ConfigError::NoneSelected);
                    }
                },
            },
        };
        let mut i: usize = 0;
        while i < self.profiles.len()
            invariant
                i <= self.profiles.len(),
                self.selected(name_view(name)) == Some(wanted@),
                forall|j: int| 0 <= j < i ==> self.profiles@[j].0@ != wanted@,
            decreases self.profiles.len() - i,
        {
            if str_eq(self.profiles[i].0.as_str(), wanted.as_str()) {
                proof {
                    lemma_profile_skip(self.profiles@, wanted@, i as int);
                    assert(self.profiles@.subrange(i as int, self.profiles@.len() as int)[0]
                        == self.profiles@[i as int]);
                }
                return Ok((wanted, self.profiles[i].1.copy()));
            }
            i += 1;
        }
        proof {
            lemma_profile_skip(self.profiles@, wanted@, i as int);
        }
        let known = if self.profiles.len() == 0 {
            String::from_str("none")
        } else {
            let mut names: Vec<String> = Vec::new();
            let mut k: usize = 0;
            while k < self.profiles.len()
                invariant
                    k <= self.profiles.len(),
                    names@.map_values(|s: String| s@) =~= self.names().take(k as int),
                decreases self.profiles.len() - k,
            {
                names.push(self.profiles[k].0.clone());
                assert(self.names().take(k + 1) =~= self.names().take(k as int).push(
                    self.profiles@[k as int].0@,
                ));
                k += 1;
            }
            assert(self.names().take(self.profiles@.len() as int) =~= self.names());
            join_strings(&names, ", ")
        };
        Err(ConfigError::NotFound { wanted, known })
    }
}

proof fn lemma_profile_skip_to(
    s: Seq<(String, Profile)>,
    t: Seq<(String, Profile)>,
    k: Seq<char>,
    i: int,
)
    requires
        s.len() == t.len(),
        0 <= i < s.len(),
        s[i].0@ == t[i].0@,
        s[i].0@ != k,
        forall|j: int| 0 <= j < s.len() && j != i ==> s[j] == t[j],
    ensures
        profile_named(t, k) == profile_named(s, k),
    decreases s.len(),
{
    if i > 0 {
        lemma_profile_skip_to(
            s.subrange(1, s.len() as int),
            t.subrange(1, t.len() as int),
            k,
            i - 1,
        );
    } else {
        assert(s.subrange(1, s.len() as int) =~= t.subrange(1, t.len() as int));
    }
}

proof fn lemma_profile_push(s: Seq<(String, Profile)>, n: String, p: Profile, k: Seq<char>)
    requires
        k != n@,
    ensures
        profile_named(s.push((n, p)), k) == profile_named(s, k),
    decreases s.len(),
{
    let t = s.push((n, p));
    assert(t[s.len() as int] == (n, p));
    if s.len() == 0 {
        assert(t.subrange(1, 1) =~= Seq::<(String, Profile)>::empty());
        assert(t[0].0@ != k);
        assert(profile_named(t, k) == profile_named(t.subrange(1, 1), k));
    } else {
        lemma_profile_push(s.subrange(1, s.len() as int), n, p, k);
        assert(s.push((n, p))[0] == s[0]);
        assert(s.push((n, p)).subrange(1, s.len() as int + 1) =~= s.subrange(
            1,
            s.len() as int,
        ).push((n, p)));
    }
}

/// `env_bool`: an explicit boolean setting read from the environment, so an
/// explicit `false` can override the file. Takes what the lookup found.
pub open spec fn truthy(v: Seq<char>) -> bool {
    let w = lower_all(trim(v));
    w == "1"@ || w == "true"@ || w == "yes"@ || w == "on"@
}

/// Read a boolean setting out of the value the environment holds for it.
pub fn env_bool(found: Option<&str>) -> (r: Option<bool>)
    ensures
        match found {
            None => r is None,
            Some(v) => r == Some(truthy(v@)),
        },
{
    match found {
        None => None,
        Some(v) => {
            let w = lower_chars(&trim_str(v));
            Some(word_is(&w, "1") || word_is(&w, "true") || word_is(&w, "yes") || word_is(&w, "on"))
        },
    }
}

} // verus!
