//! The flag entities: a named boolean toggle (`Flag`), its value union
//! (`FlagValue`), and the (app, env) scope that namespaces flags (`FlagPath`).

use vstd::prelude::*;
use vstd::string::StringExecFns;

verus! {

/// The value a flag evaluates to. A single-variant union today, kept as an
/// enum so further kinds can be added without changing the codec's framing.
#[derive(Debug, Clone, Copy, PartialEq, Eq, Structural)]
pub enum FlagValue {
    Bool(bool),
}

/// The mathematical model of a [`Flag`].
pub struct FlagView {
    pub key: Seq<char>,
    pub app: Seq<char>,
    pub env: Seq<char>,
    pub value: FlagValue,
    pub version: u64,
    pub enabled: bool,
}

/// A named boolean toggle, unique within its (app, env) scope. `key`, `app`,
/// `env` and `version` are fixed at creation; `value` and `enabled` may be
/// replaced in place by the update protocol.
#[derive(Debug)]
pub struct Flag {
    key: String,
    app: String,
    env: String,
    value: FlagValue,
    version: u64,
    enabled: bool,
}

impl View for Flag {
    type V = FlagView;

    closed spec fn view(&self) -> FlagView {
        FlagView {
            key: self.key@,
            app: self.app@,
            env: self.env@,
            value: self.value,
            version: self.version,
            enabled: self.enabled,
        }
    }
}

/// The scope separator in a flag's composite path string.
pub open spec fn path_sep() -> Seq<char> {
    seq![':', ':']
}

/// The composite path string under which a flag is addressed.
pub open spec fn spec_make_path(app: Seq<char>, env: Seq<char>, key: Seq<char>) -> Seq<char> {
    app + path_sep() + env + path_sep() + key
}

impl Flag {
    pub fn new(
        key: &str,
        app: &str,
        env: &str,
        value: FlagValue,
        version: u64,
        enabled: bool,
    ) -> (r: Flag)
        ensures
            r@ == (FlagView {
                key: key@,
                app: app@,
                env: env@,
                value: value,
                version: version,
                enabled: enabled,
            }),
    {
        Flag {
            key: key.to_owned(),
            app: app.to_owned(),
            env: env.to_owned(),
            value: value,
            version: version,
            enabled: enabled,
        }
    }

    /// A disabled flag never exposes its value through evaluation.
    pub fn eval(&self) -> (r: Option<&FlagValue>)
        ensures
            self@.enabled ==> (r matches Some(v) && *v == self@.value),
            !self@.enabled ==> r is None,
    {
        if self.enabled {
            Some(&self.value)
        } else {
            None
        }
    }

    pub fn is_enabled(&self) -> (r: bool)
        ensures
            r == self@.enabled,
    {
        self.enabled
    }

    pub fn is_ver(&self, ver: u64) -> (r: bool)
        ensures
            r == (self@.version == ver),
    {
        self.version == ver
    }

    pub fn app(&self) -> (r: &str)
        ensures
            r@ == self@.app,
    {
        self.app.as_str()
    }

    pub fn env(&self) -> (r: &str)
        ensures
            r@ == self@.env,
    {
        self.env.as_str()
    }

    pub fn key(&self) -> (r: &str)
        ensures
            r@ == self@.key,
    {
        self.key.as_str()
    }

    pub fn path(&self) -> (r: String)
        ensures
            r@ == spec_make_path(self@.app, self@.env, self@.key),
    {
        Flag::make_path(self.app(), self.env(), self.key())
    }

    pub fn make_path(app: &str, env: &str, key: &str) -> (r: String)
        ensures
            r@ == spec_make_path(app@, env@, key@),
    {
        proof {
            reveal_strlit("::");
            assert("::"@ =~= path_sep());
        }
        let mut out = app.to_owned();
        out.append("::");
        out.append(env);
        out.append("::");
        out.append(key);
        out
    }

    pub fn value(&self) -> (r: FlagValue)
        ensures
            r == self@.value,
    {
        self.value
    }

    pub fn version(&self) -> (r: u64)
        ensures
            r == self@.version,
    {
        self.version
    }

    /// Replaces the stored value; every other field is untouched.
    pub fn set_value(&mut self, value: FlagValue)
        ensures
            final(self)@ == (FlagView { value: value, ..old(self)@ }),
    {
        self.value = value;
    }

    /// Switches the flag on or off; every other field is untouched.
    pub fn toggle(&mut self, enabled: bool)
        ensures
            final(self)@ == (FlagView { enabled: enabled, ..old(self)@ }),
    {
        self.enabled = enabled;
    }
}

impl PartialEq for Flag {
    fn eq(&self, other: &Flag) -> (r: bool) {
        self.key == other.key && self.app == other.app && self.env == other.env
            && self.value == other.value && self.version == other.version
            && self.enabled == other.enabled
    }
}

impl vstd::std_specs::cmp::PartialEqSpecImpl for Flag {
    open spec fn obeys_eq_spec() -> bool {
        true
    }

    open spec fn eq_spec(&self, other: &Flag) -> bool {
        self@ == other@
    }
}

/// The mathematical model of a [`FlagPath`].
pub struct FlagPathView {
    pub app: Seq<char>,
    pub env: Seq<char>,
}

/// The (app, env) scope identifying a namespace of flags. The derived
/// composite string `app` + `"$"` + `env` is the key under which the scope
/// itself is stored.
#[derive(Debug)]
pub struct FlagPath {
    app: String,
    env: String,
}

/// The derived composite string of a scope.
pub open spec fn spec_scope_path(app: Seq<char>, env: Seq<char>) -> Seq<char> {
    app + seq!['$'] + env
}

impl View for FlagPath {
    type V = FlagPathView;

    closed spec fn view(&self) -> FlagPathView {
        FlagPathView { app: self.app@, env: self.env@ }
    }
}

impl FlagPath {
    pub fn new(app: &str, env: &str) -> (r: FlagPath)
        ensures
            r@ == (FlagPathView { app: app@, env: env@ }),
    {
        FlagPath { app: app.to_owned(), env: env.to_owned() }
    }

    pub fn app(&self) -> (r: &str)
        ensures
            r@ == self@.app,
    {
        self.app.as_str()
    }

    pub fn env(&self) -> (r: &str)
        ensures
            r@ == self@.env,
    {
        self.env.as_str()
    }

    /// The composite string under which this scope's flags are filed.
    pub fn path(&self) -> (r: String)
        ensures
            r@ == spec_scope_path(self@.app, self@.env),
    {
        proof {
            reveal_strlit("$");
            assert("$"@ =~= seq!['$']);
        }
        let mut out = self.app.clone();
        out.append("$");
        out.append(self.env.as_str());
        out
    }
}

/// Two scopes are equal exactly when `app` and `env` both match.
impl PartialEq for FlagPath {
    fn eq(&self, other: &FlagPath) -> (r: bool) {
        self.app == other.app && self.env == other.env
    }
}

impl vstd::std_specs::cmp::PartialEqSpecImpl for FlagPath {
    open spec fn obeys_eq_spec() -> bool {
        true
    }

    open spec fn eq_spec(&self, other: &FlagPath) -> bool {
        self@ == other@
    }
}

} // verus!
