//! Runtime configuration: its defaults, its validation, and the expansion
//! of command aliases.

use crate::aliases::AliasMap;
use crate::text::{debug_string, debug_text, views};
use std::path::PathBuf;
use vstd::prelude::*;

verus! {

/// The environment variable that names the configuration file.
pub const CONFIG_ENV: &'static str = "EMACS_I3_CONFIG";

/// The environment variable that names the Emacs server socket.
pub const SOCKET_ENV: &'static str = "EMACS_I3_SOCKET";

/// The environment variable that sets the Emacs timeout in milliseconds.
pub const TIMEOUT_ENV: &'static str = "EMACS_I3_TIMEOUT_MS";

/// Paths are carried through the library without being inspected.
#[verifier::external_type_specification]
#[verifier::external_body]
pub struct ExPathBuf(PathBuf);

/// The runtime configuration.
#[derive(Debug, Clone, PartialEq, Eq)]
pub struct Config {
    /// Emacs server socket chosen by the configuration file.
    pub socket: Option<PathBuf>,
    /// Bound, in milliseconds, on each Emacs server operation.
    pub timeout_ms: u64,
    /// Window classes that identify an Emacs frame.
    pub emacs_classes: Vec<String>,
    /// Window-title prefixes that identify an Emacs frame.
    pub emacs_name_prefixes: Vec<String>,
    /// Whether horizontal focus inside a tabbed or stacked container follows
    /// tab order when i3 handles it.
    pub tabbed_horizontal_focus: bool,
    /// Exact command aliases.
    pub aliases: AliasMap,
}

/// Why a configuration, or an alias expansion, is refused.
#[derive(Debug, Clone, PartialEq, Eq)]
pub enum ConfigError {
    /// `timeout_ms` is zero.
    ZeroTimeout,
    /// `emacs_classes` holds an empty string.
    EmptyEmacsClass,
    /// `emacs_name_prefixes` holds an empty string.
    EmptyNamePrefix,
    /// Following aliases from a command comes back to this command text.
    AliasCycle(String),
}

/// Some string of the list is empty.
pub open spec fn has_empty(v: Seq<String>) -> bool {
    exists|i: int| 0 <= i < v.len() && (#[trigger] v[i])@.len() == 0
}

/// The outcome that `validate` gives for a configuration.
pub open spec fn validation(c: Config) -> Result<(), ConfigError> {
    if c.timeout_ms == 0 {
        Err(ConfigError::ZeroTimeout)
    } else if has_empty(c.emacs_classes@) {
        Err(ConfigError::EmptyEmacsClass)
    } else if has_empty(c.emacs_name_prefixes@) {
        Err(ConfigError::EmptyNamePrefix)
    } else {
        Ok(())
    }
}

/// The command text reached from `c` after `n` alias rewrites.
pub open spec fn alias_step(m: Map<Seq<char>, Seq<char>>, c: Seq<char>, n: nat) -> Seq<char>
    decreases n,
{
    if n == 0 {
        c
    } else {
        m[alias_step(m, c, (n - 1) as nat)]
    }
}

/// Following aliases from `c` leaves the alias table after exactly `n`
/// rewrites: the first `n` texts are aliases and the `n`-th is not.
pub open spec fn expands_in(m: Map<Seq<char>, Seq<char>>, c: Seq<char>, n: nat) -> bool {
    &&& forall|i: nat| i < n ==> m.contains_key(#[trigger] alias_step(m, c, i))
    &&& !m.contains_key(alias_step(m, c, n))
}

/// Following aliases from `c` first meets a text it has already met at
/// rewrite `k`: the texts before it are distinct aliases, and the `k`-th
/// equals one of them.
pub open spec fn first_repeat_at(m: Map<Seq<char>, Seq<char>>, c: Seq<char>, k: nat) -> bool {
    &&& forall|i: nat| i < k ==> m.contains_key(#[trigger] alias_step(m, c, i))
    &&& forall|i: nat, j: nat|
        i < j < k ==> #[trigger] alias_step(m, c, i) != #[trigger] alias_step(m, c, j)
    &&& exists|j: nat| j < k && #[trigger] alias_step(m, c, j) == alias_step(m, c, k)
}

/// A command text that expands to a final command.
pub open spec fn expands(m: Map<Seq<char>, Seq<char>>, c: Seq<char>) -> bool {
    exists|n: nat| expands_in(m, c, n)
}

/// The final command that `c` expands to, where it expands.
pub open spec fn expansion(m: Map<Seq<char>, Seq<char>>, c: Seq<char>) -> Seq<char> {
    alias_step(m, c, choose|n: nat| expands_in(m, c, n))
}

/// An expansion ends at one rewrite count only.
pub proof fn lemma_expansion_unique(m: Map<Seq<char>, Seq<char>>, c: Seq<char>, a: nat, b: nat)
    requires
        expands_in(m, c, a),
        expands_in(m, c, b),
    ensures
        a == b,
{
    if a < b {
        assert(m.contains_key(alias_step(m, c, a)));
    }
    if b < a {
        assert(m.contains_key(alias_step(m, c, b)));
    }
}

/// After a repeat, the rewrites run in a loop.
proof fn lemma_periodic(m: Map<Seq<char>, Seq<char>>, c: Seq<char>, j: nat, k: nat, t: nat)
    requires
        alias_step(m, c, j) == alias_step(m, c, k),
    ensures
        alias_step(m, c, j + t) == alias_step(m, c, k + t),
    decreases t,
{
    if t > 0 {
        lemma_periodic(m, c, j, k, (t - 1) as nat);
        assert(alias_step(m, c, j + t) == m[alias_step(m, c, (j + t - 1) as nat)]);
        assert(alias_step(m, c, k + t) == m[alias_step(m, c, (k + t - 1) as nat)]);
    }
}

proof fn lemma_loop_stays_aliased(m: Map<Seq<char>, Seq<char>>, c: Seq<char>, k: nat, n: nat)
    requires
        first_repeat_at(m, c, k),
    ensures
        m.contains_key(alias_step(m, c, n)),
    decreases n,
{
    if n >= k {
        let j = choose|j: nat| j < k && #[trigger] alias_step(m, c, j) == alias_step(m, c, k);
        let t = (n - k) as nat;
        lemma_periodic(m, c, j, k, t);
        lemma_loop_stays_aliased(m, c, k, j + t);
    }
}

/// Aliases that come back to a command they already passed never expand:
/// a cycle is refused, whatever the table holds.
pub proof fn lemma_cycle_never_expands(m: Map<Seq<char>, Seq<char>>, c: Seq<char>, k: nat)
    requires
        first_repeat_at(m, c, k),
    ensures
        !expands(m, c),
{
    if expands(m, c) {
        let n = choose|n: nat| expands_in(m, c, n);
        lemma_loop_stays_aliased(m, c, k, n);
    }
}

/// The final command of an expansion is no alias: expanding it again gives
/// it back unchanged.
pub proof fn lemma_expansion_is_final(m: Map<Seq<char>, Seq<char>>, c: Seq<char>)
    requires
        expands(m, c),
    ensures
        !m.contains_key(expansion(m, c)),
        expands(m, expansion(m, c)),
        expansion(m, expansion(m, c)) == expansion(m, c),
{
    let n = choose|n: nat| expands_in(m, c, n);
    let e = expansion(m, c);
    assert(alias_step(m, e, 0) == e);
    assert(expands_in(m, e, 0));
    let z = choose|z: nat| expands_in(m, e, z);
    lemma_expansion_unique(m, e, 0, z);
}

/// A command that is no alias expands to itself.
pub proof fn lemma_plain_command_expands_to_itself(m: Map<Seq<char>, Seq<char>>, c: Seq<char>)
    requires
        !m.contains_key(c),
    ensures
        expands(m, c),
        expansion(m, c) == c,
{
    assert(alias_step(m, c, 0) == c);
    assert(expands_in(m, c, 0));
    let z = choose|z: nat| expands_in(m, c, z);
    lemma_expansion_unique(m, c, 0, z);
}

proof fn lemma_step_shift(m: Map<Seq<char>, Seq<char>>, a: Seq<char>, n: nat)
    requires
        m.contains_key(a),
    ensures
        alias_step(m, a, n + 1) == alias_step(m, m[a], n),
    decreases n,
{
    if n == 0 {
        assert(alias_step(m, a, 1) == m[alias_step(m, a, 0)]);
    } else {
        lemma_step_shift(m, a, (n - 1) as nat);
        assert(alias_step(m, a, n + 1) == m[alias_step(m, a, n)]);
        assert(alias_step(m, m[a], n) == m[alias_step(m, m[a], (n - 1) as nat)]);
    }
}

/// Aliases expand transitively: an alias expands exactly when its
/// replacement does, and to the same final command.
pub proof fn lemma_alias_expands_transitively(m: Map<Seq<char>, Seq<char>>, a: Seq<char>)
    requires
        m.contains_key(a),
    ensures
        expands(m, a) == expands(m, m[a]),
        expands(m, a) ==> expansion(m, a) == expansion(m, m[a]),
{
    let b = m[a];
    if expands(m, a) {
        let n = choose|n: nat| expands_in(m, a, n);
        assert(n > 0) by {
            assert(alias_step(m, a, 0) == a);
        }
        let p = (n - 1) as nat;
        lemma_step_shift(m, a, p);
        assert forall|i: nat| i < p implies m.contains_key(#[trigger] alias_step(m, b, i)) by {
            lemma_step_shift(m, a, i);
            assert(m.contains_key(alias_step(m, a, i + 1)));
        }
        assert(expands_in(m, b, p));
        let q = choose|q: nat| expands_in(m, b, q);
        lemma_expansion_unique(m, b, p, q);
    }
    if expands(m, b) {
        let p = choose|p: nat| expands_in(m, b, p);
        let n = p + 1;
        lemma_step_shift(m, a, p);
        assert forall|i: nat| i < n implies m.contains_key(#[trigger] alias_step(m, a, i)) by {
            if i == 0 {
                assert(alias_step(m, a, 0) == a);
            } else {
                lemma_step_shift(m, a, (i - 1) as nat);
            }
        }
        assert(expands_in(m, a, n));
    }
}

impl Config {
    /// Checks that the configuration can be used: the timeout is positive and
    /// no window class or title prefix is empty.
    pub fn validate(&self) -> (r: Result<(), ConfigError>)
        ensures
            r == validation(*self),
    {
        if self.timeout_ms == 0 {
            return Err(ConfigError::ZeroTimeout);
        }
        if any_empty(&self.emacs_classes) {
            return Err(ConfigError::EmptyEmacsClass);
        }
        if any_empty(&self.emacs_name_prefixes) {
            return Err(ConfigError::EmptyNamePrefix);
        }
        Ok(())
    }

    /// Follows the aliases from `command` until it reaches a text that is no
    /// alias, and returns that text; refuses a chain of aliases that comes
    /// back to a text it has passed, naming the first repeated text.
    pub fn expand_alias(&self, command: &str) -> (r: Result<String, ConfigError>)
        ensures
            r is Ok <==> expands(self.aliases@, command@),
            match r {
                Ok(v) => v@ == expansion(self.aliases@, command@),
                Err(e) => exists|k: nat|
                    first_repeat_at(self.aliases@, command@, k) && (e matches ConfigError::AliasCycle(
                        x,
                    ) && x@ == alias_step(self.aliases@, command@, k)),
            },
    {
        let ghost m = self.aliases@;
        let ghost c = command@;
        let size = self.aliases.len();
        let mut value = String::from_str(command);
        let mut seen: Vec<String> = Vec::new();
        let ghost mut n: nat = 0;
        loop
            invariant
                m == self.aliases@,
                c == command@,
                m.dom().finite(),
                size == m.dom().len(),
                seen@.len() == n,
                value@ == alias_step(m, c, n),
                forall|i: int| 0 <= i < n ==> (#[trigger] seen@[i])@ == alias_step(m, c, i as nat),
                forall|i: nat| i < n ==> m.contains_key(#[trigger] alias_step(m, c, i)),
                forall|i: nat, j: nat|
                    i < j < n ==> #[trigger] alias_step(m, c, i) != #[trigger] alias_step(m, c, j),
            decreases size - n,
        {
            match self.aliases.get(value.as_str()) {
                None => {
                    proof {
                        assert(expands_in(m, c, n));
                        let z = choose|z: nat| expands_in(m, c, z);
                        lemma_expansion_unique(m, c, n, z);
                    }
                    return Ok(value);
                },
                Some(next) => {
                    match find_string(&seen, value.as_str()) {
                        Some(j) => {
                            proof {
                                assert(alias_step(m, c, j as nat) == alias_step(m, c, n));
                                assert(first_repeat_at(m, c, n));
                                lemma_cycle_never_expands(m, c, n);
                            }
                            return Err(ConfigError::AliasCycle(value));
                        },
                        None => {
                            let ghost steps = Seq::new(n + 1, |i: int| alias_step(m, c, i as nat));
                            proof {
                                assert forall|a: int, b: int|
                                    0 <= a < steps.len() && 0 <= b < steps.len() && a != b implies steps[a]
                                    != steps[b] by {
                                    if a < b {
                                        if b < n {
                                            assert(alias_step(m, c, a as nat) != alias_step(
                                                m,
                                                c,
                                                b as nat,
                                            ));
                                        } else {
                                            assert(seen@[a]@ == alias_step(m, c, a as nat));
                                        }
                                    } else {
                                        if a < n {
                                            assert(alias_step(m, c, b as nat) != alias_step(
                                                m,
                                                c,
                                                a as nat,
                                            ));
                                        } else {
                                            assert(seen@[b]@ == alias_step(m, c, b as nat));
                                        }
                                    }
                                }
                                steps.unique_seq_to_set();
                                assert(steps.to_set().subset_of(m.dom()));
                                vstd::set_lib::lemma_len_subset(steps.to_set(), m.dom());
                            }
                            let following = next.clone();
                            seen.push(value);
                            value = following;
                            proof {
                                assert forall|i: nat, j: nat| i < j < n + 1 implies #[trigger] alias_step(
                                    m,
                                    c,
                                    i,
                                ) != #[trigger] alias_step(m, c, j) by {
                                    assert(steps[i as int] != steps[j as int]);
                                }
                                n = n + 1;
                            }
                        },
                    }
                },
            }
        }
    }
}

/// Whether some string of the list is empty.
fn any_empty(v: &Vec<String>) -> (r: bool)
    ensures
        r == has_empty(v@),
{
    let mut i: usize = 0;
    while i < v.len()
        invariant
            i <= v@.len(),
            forall|j: int| 0 <= j < i ==> (#[trigger] v@[j])@.len() != 0,
        decreases v@.len() - i,
    {
        if v[i].as_str().is_empty() {
            return true;
        }
        i = i + 1;
    }
    false
}

/// The position of a string with the characters of `s` in the list, if any.
fn find_string(v: &Vec<String>, s: &str) -> (r: Option<usize>)
    ensures
        match r {
            Some(i) => i < v@.len() && v@[i as int]@ == s@,
            None => forall|i: int| 0 <= i < v@.len() ==> (#[trigger] v@[i])@ != s@,
        },
{
    let mut i: usize = 0;
    while i < v.len()
        invariant
            i <= v@.len(),
            forall|j: int| 0 <= j < i ==> (#[trigger] v@[j])@ != s@,
        decreases v@.len() - i,
    {
        if crate::text::str_eq(v[i].as_str(), s) {
            return Some(i);
        }
        i = i + 1;
    }
    None
}

impl Default for Config {
    /// The configuration used without a configuration file: a 250 ms
    /// timeout, the `Emacs` window class, the `emacs: ` title prefix,
    /// horizontal focus in tab order, no aliases and no socket.
    fn default() -> (r: Config)
        ensures
            r.socket is None,
            r.timeout_ms == 250,
            views(r.emacs_classes@) == seq!["Emacs"@],
            views(r.emacs_name_prefixes@) == seq!["emacs: "@],
            r.tabbed_horizontal_focus,
            r.aliases@ == Map::<Seq<char>, Seq<char>>::empty(),
    {
        let mut emacs_classes: Vec<String> = Vec::new();
        emacs_classes.push(String::from_str("Emacs"));
        let mut emacs_name_prefixes: Vec<String> = Vec::new();
        emacs_name_prefixes.push(String::from_str("emacs: "));
        assert(views(emacs_classes@) =~= seq!["Emacs"@]);
        assert(views(emacs_name_prefixes@) =~= seq!["emacs: "@]);
        Config {
            socket: None,
            timeout_ms: 250,
            emacs_classes,
            emacs_name_prefixes,
            tabbed_horizontal_focus: true,
            aliases: AliasMap::new(),
        }
    }
}

/// The default configuration passes validation.
pub proof fn lemma_default_is_valid(c: Config)
    requires
        c.socket is None,
        c.timeout_ms == 250,
        views(c.emacs_classes@) == seq!["Emacs"@],
        views(c.emacs_name_prefixes@) == seq!["emacs: "@],
    ensures
        validation(c) == Ok::<(), ConfigError>(()),
{
    reveal_strlit("Emacs");
    reveal_strlit("emacs: ");
    assert(views(c.emacs_classes@).len() == 1);
    assert(views(c.emacs_name_prefixes@).len() == 1);
    assert(c.emacs_classes@[0]@ == views(c.emacs_classes@)[0]);
    assert(c.emacs_name_prefixes@[0]@ == views(c.emacs_name_prefixes@)[0]);
}

/// A configuration together with where it came from.
#[derive(Debug, Clone)]
pub struct LoadedConfig {
    /// The configuration in force.
    pub config: Config,
    /// The configuration file that was looked for, if any.
    pub path: Option<PathBuf>,
    /// Whether the configuration was read from that file.
    pub loaded: bool,
}

/// Why no configuration could be loaded.
#[derive(Debug, Clone, PartialEq, Eq)]
pub enum LoadError {
    /// A configuration file was named explicitly and does not exist.
    MissingFile,
    /// The configuration is not valid.
    Invalid(ConfigError),
}

/// A copy of a path, by `PathBuf::clone`; claims the copy equals the path
/// it was made from.
#[verifier::external_body]
fn clone_path(p: &PathBuf) -> (r: PathBuf)
    ensures
        r == *p,
{
    p.clone()
}

/// The path that `Path::join` makes of `base` and the relative path
/// `tail`; it depends on the two alone.
pub uninterp spec fn path_join(base: PathBuf, tail: Seq<char>) -> PathBuf;

/// `base` extended by `tail`, by `Path::join`; claims the result is
/// `path_join` of the two.
#[verifier::external_body]
fn join_path(base: &PathBuf, tail: &str) -> (r: PathBuf)
    ensures
        r == path_join(*base, tail@),
{
    base.join(tail)
}

/// The first of the options that holds a value.
pub open spec fn first_some<T>(a: Option<T>, b: Option<T>) -> Option<T> {
    if a is Some {
        a
    } else {
        b
    }
}

/// The configuration file to look for: the one given on the command line,
/// else the one named by the environment, else the default location; and
/// whether it was named explicitly (by either of the first two).
pub fn config_path(cli_path: Option<PathBuf>, env_path: Option<PathBuf>, default_path: Option<
    PathBuf,
>) -> (r: (Option<PathBuf>, bool))
    ensures
        r.0 == first_some(first_some(cli_path, env_path), default_path),
        r.1 == (cli_path is Some || env_path is Some),
{
    match cli_path {
        Some(p) => (Some(p), true),
        None => match env_path {
            Some(p) => (Some(p), true),
            None => (default_path, false),
        },
    }
}

/// The default location of the configuration file: under
/// `$XDG_CONFIG_HOME`, else under `$HOME/.config`; none without either.
pub fn default_config_path(xdg_config_home: Option<PathBuf>, home: Option<PathBuf>) -> (r: Option<
    PathBuf,
>)
    ensures
        r == match xdg_config_home {
            Some(x) => Some(path_join(x, "emacs-i3/config.toml"@)),
            None => match home {
                Some(h) => Some(path_join(h, ".config/emacs-i3/config.toml"@)),
                None => None,
            },
        },
{
    match xdg_config_home {
        Some(root) => Some(join_path(&root, "emacs-i3/config.toml")),
        None => match home {
            Some(home) => Some(join_path(&home, ".config/emacs-i3/config.toml")),
            None => None,
        },
    }
}

/// The outcome of loading, given the file looked for, whether it was named
/// explicitly, and the configuration read from it (`None` where it does
/// not exist).
pub open spec fn load_outcome(
    path: Option<PathBuf>,
    explicit: bool,
    file: Option<Config>,
    r: Result<LoadedConfig, LoadError>,
) -> bool {
    match file {
        Some(c) => match validation(c) {
            Ok(()) => r == Ok::<LoadedConfig, LoadError>(
                LoadedConfig { config: c, path: path, loaded: true },
            ),
            Err(e) => r == Err::<LoadedConfig, LoadError>(LoadError::Invalid(e)),
        },
        None => if explicit {
            r == Err::<LoadedConfig, LoadError>(LoadError::MissingFile)
        } else {
            r matches Ok(l) && l.path == path && !l.loaded && l.config.socket is None
                && l.config.timeout_ms == 250 && views(l.config.emacs_classes@) == seq!["Emacs"@]
                && views(l.config.emacs_name_prefixes@) == seq!["emacs: "@]
                && l.config.tabbed_horizontal_focus && l.config.aliases@ == Map::<
                Seq<char>,
                Seq<char>,
            >::empty()
        },
    }
}

/// Settles the configuration: the file's, validated, where the file exists;
/// an error where a file named explicitly does not exist; the defaults
/// otherwise.
pub fn load(path: Option<PathBuf>, explicit: bool, file: Option<Config>) -> (r: Result<
    LoadedConfig,
    LoadError,
>)
    ensures
        load_outcome(path, explicit, file, r),
{
    match file {
        Some(config) => match config.validate() {
            Ok(()) => Ok(LoadedConfig { config, path, loaded: true }),
            Err(e) => Err(LoadError::Invalid(e)),
        },
        None => {
            if explicit {
                return Err(LoadError::MissingFile);
            }
            let config = Config::default();
            proof {
                lemma_default_is_valid(config);
            }
            Ok(LoadedConfig { config, path, loaded: false })
        },
    }
}

/// The Emacs server socket: the one given on the command line, else the
/// one named by the environment, else the configured one, else
/// `emacs/server` under the runtime directory.
pub fn resolve_socket(
    cli_socket: Option<PathBuf>,
    env_socket: Option<PathBuf>,
    config: &Config,
    runtime_dir: Option<PathBuf>,
) -> (r: Option<PathBuf>)
    ensures
        cli_socket is Some ==> r == cli_socket,
        cli_socket is None && env_socket is Some ==> r == env_socket,
        cli_socket is None && env_socket is None && config.socket is Some ==> r == config.socket,
        cli_socket is None && env_socket is None && config.socket is None ==> r == match runtime_dir {
            Some(d) => Some(path_join(d, "emacs/server"@)),
            None => None,
        },
{
    if cli_socket.is_some() {
        return cli_socket;
    }
    if env_socket.is_some() {
        return env_socket;
    }
    match &config.socket {
        Some(p) => Some(clone_path(p)),
        None => match runtime_dir {
            Some(root) => Some(join_path(&root, "emacs/server")),
            None => None,
        },
    }
}

/// What the environment holds for a variable.
#[derive(Debug, Clone, PartialEq, Eq)]
pub enum EnvValue {
    /// The variable is not set.
    Missing,
    /// The variable is set but is not Unicode.
    NotUnicode,
    /// The variable's value.
    Present(String),
}

/// Why no timeout could be settled.
#[derive(Debug, Clone, PartialEq, Eq)]
pub enum TimeoutError {
    /// The environment's timeout is not a non-negative decimal integer that
    /// fits in 64 bits.
    InvalidEnv,
    /// The environment's timeout is not Unicode.
    UnreadableEnv,
    /// The timeout is zero.
    Zero,
}

/// A decimal digit.
pub open spec fn is_digit(c: char) -> bool {
    48 <= (c as u32) <= 57
}

/// The value of a string of decimal digits.
pub open spec fn digits_value(s: Seq<char>) -> int
    decreases s.len(),
{
    if s.len() == 0 {
        0
    } else {
        digits_value(s.drop_last()) * 10 + ((s.last() as u32) - 48)
    }
}

/// What `str::parse::<u64>` reads: an optional `+` followed by at least one
/// decimal digit and nothing else, whose value fits in 64 bits.
pub open spec fn decimal_u64(s: Seq<char>) -> Option<u64> {
    let d = unsigned_part(s);
    if d.len() > 0 && all_digits(d) && digits_value(d) <= u64::MAX {
        Some(digits_value(d) as u64)
    } else {
        None
    }
}

/// The text after an optional leading `+`.
pub open spec fn unsigned_part(s: Seq<char>) -> Seq<char> {
    if s.len() > 0 && s[0] == '+' {
        s.drop_first()
    } else {
        s
    }
}

/// Every character is a decimal digit.
pub open spec fn all_digits(d: Seq<char>) -> bool {
    forall|i: int| 0 <= i < d.len() ==> is_digit(#[trigger] d[i])
}

/// A string of digits is worth at least any of its prefixes.
proof fn lemma_digits_value_grows(s: Seq<char>, k: int)
    requires
        0 <= k <= s.len(),
        forall|i: int| 0 <= i < s.len() ==> is_digit(#[trigger] s[i]),
    ensures
        0 <= digits_value(s.take(k)) <= digits_value(s),
    decreases s.len(),
{
    if s.len() > 0 {
        let t = s.drop_last();
        assert forall|i: int| 0 <= i < t.len() implies is_digit(#[trigger] t[i]) by {
            assert(t[i] == s[i]);
        }
        if k == s.len() {
            assert(s.take(k) =~= s);
            lemma_digits_value_grows(t, t.len() as int);
            assert(t.take(t.len() as int) =~= t);
        } else {
            lemma_digits_value_grows(t, k);
            assert(t.take(k) =~= s.take(k));
        }
        assert(is_digit(s.last()));
    } else {
        assert(s.take(k) =~= s);
    }
}

/// Reads a decimal `u64` as `str::parse::<u64>` does: an optional `+`,
/// then digits only, with the value in range.
fn parse_u64(s: &str) -> (r: Option<u64>)
    ensures
        r == decimal_u64(s@),
{
    let n = s.unicode_len();
    let start: usize = if n > 0 && s.get_char(0) == '+' {
        1
    } else {
        0
    };
    let ghost d = unsigned_part(s@);
    assert(d =~= s@.skip(start as int));
    if start == n {
        return None;
    }
    let mut value: u64 = 0;
    let mut i: usize = start;
    assert(d.take(0) =~= Seq::<char>::empty());
    while i < n
        invariant
            n == s@.len(),
            start <= i <= n,
            d == s@.skip(start as int),
            d == unsigned_part(s@),
            forall|j: int| 0 <= j < i - start ==> is_digit(#[trigger] d[j]),
            value == digits_value(d.take(i - start)),
        decreases n - i,
    {
        let c = s.get_char(i);
        let code = c as u32;
        assert(d[i - start] == c);
        if code < 48 || code > 57 {
            assert(!is_digit(d[i - start]));
            assert(!all_digits(d));
            assert(decimal_u64(s@) is None);
            return None;
        }
        let digit = (code - 48) as u64;
        let ghost p = d.take(i + 1 - start);
        proof {
            assert(p.drop_last() =~= d.take(i - start));
            assert(p.last() == c);
        }
        let tens = value.checked_mul(10);
        let next = match tens {
            Some(t) => t.checked_add(digit),
            None => None,
        };
        match next {
            Some(v) => {
                value = v;
            },
            None => {
                proof {
                    assert(digits_value(p) == value * 10 + digit);
                    assert(digits_value(p) > u64::MAX);
                    if all_digits(d) {
                        lemma_digits_value_grows(d, i + 1 - start);
                        assert(digits_value(d) > u64::MAX);
                    }
                    assert(decimal_u64(s@) is None);
                }
                return None;
            },
        }
        i = i + 1;
    }
    assert(d.take(n - start) =~= d);
    Some(value)
}

/// The timeout a setting gives before the check for zero.
pub open spec fn timeout_choice(cli: Option<u64>, env: EnvValue, configured: u64) -> Result<
    u64,
    TimeoutError,
> {
    match cli {
        Some(v) => Ok(v),
        None => match env {
            EnvValue::Missing => Ok(configured),
            EnvValue::NotUnicode => Err(TimeoutError::UnreadableEnv),
            EnvValue::Present(s) => match decimal_u64(s@) {
                Some(v) => Ok(v),
                None => Err(TimeoutError::InvalidEnv),
            },
        },
    }
}

/// The Emacs timeout in milliseconds: the one given on the command line,
/// else the one of the environment, else the configured one; zero is
/// refused.
pub fn resolve_timeout(cli_timeout_ms: Option<u64>, env_timeout_ms: &EnvValue, config: &Config) -> (r:
    Result<u64, TimeoutError>)
    ensures
        r == match timeout_choice(cli_timeout_ms, *env_timeout_ms, config.timeout_ms) {
            Ok(v) => if v == 0 {
                Err(TimeoutError::Zero)
            } else {
                Ok(v)
            },
            Err(e) => Err(e),
        },
{
    let value = match cli_timeout_ms {
        Some(v) => v,
        None => match env_timeout_ms {
            EnvValue::Missing => config.timeout_ms,
            EnvValue::NotUnicode => {
                return Err(TimeoutError::UnreadableEnv);
            },
            EnvValue::Present(s) => match parse_u64(s.as_str()) {
                Some(v) => v,
                None => {
                    return Err(TimeoutError::InvalidEnv);
                },
            },
        },
    };
    if value == 0 {
        return Err(TimeoutError::Zero);
    }
    Ok(value)
}

impl ConfigError {
    /// The message that reports this error.
    pub fn message(&self) -> (r: String)
        ensures
            r@ == match self {
                ConfigError::ZeroTimeout => "timeout_ms must be greater than zero"@,
                ConfigError::EmptyEmacsClass => "emacs_classes cannot contain an empty value"@,
                ConfigError::EmptyNamePrefix => "emacs_name_prefixes cannot contain an empty value"@,
                ConfigError::AliasCycle(v) => "command alias cycle detected at "@ + debug_text(v@),
            },
    {
        match self {
            ConfigError::ZeroTimeout => String::from_str("timeout_ms must be greater than zero"),
            ConfigError::EmptyEmacsClass => String::from_str(
                "emacs_classes cannot contain an empty value",
            ),
            ConfigError::EmptyNamePrefix => String::from_str(
                "emacs_name_prefixes cannot contain an empty value",
            ),
            ConfigError::AliasCycle(v) => String::from_str("command alias cycle detected at ").concat(
                debug_string(v.as_str()).as_str(),
            ),
        }
    }
}

impl LoadError {
    /// The message that reports this error; for a missing file, the path is
    /// appended by the caller.
    pub fn message(&self) -> (r: String)
        ensures
            r@ == match self {
                LoadError::MissingFile => "config file does not exist"@,
                LoadError::Invalid(e) => match e {
                    ConfigError::ZeroTimeout => "timeout_ms must be greater than zero"@,
                    ConfigError::EmptyEmacsClass => "emacs_classes cannot contain an empty value"@,
                    ConfigError::EmptyNamePrefix => "emacs_name_prefixes cannot contain an empty value"@,
                    ConfigError::AliasCycle(v) => "command alias cycle detected at "@ + debug_text(
                        v@,
                    ),
                },
            },
    {
        match self {
            LoadError::MissingFile => String::from_str("config file does not exist"),
            LoadError::Invalid(e) => e.message(),
        }
    }
}

impl TimeoutError {
    /// The message that reports this error.
    pub fn message(&self) -> (r: String)
        ensures
            r@ == match self {
                TimeoutError::InvalidEnv => "EMACS_I3_TIMEOUT_MS must be a positive integer"@,
                TimeoutError::UnreadableEnv => "failed to read EMACS_I3_TIMEOUT_MS"@,
                TimeoutError::Zero => "timeout must be greater than zero milliseconds"@,
            },
    {
        match self {
            TimeoutError::InvalidEnv => String::from_str(
                "EMACS_I3_TIMEOUT_MS must be a positive integer",
            ),
            TimeoutError::UnreadableEnv => String::from_str("failed to read EMACS_I3_TIMEOUT_MS"),
            TimeoutError::Zero => String::from_str("timeout must be greater than zero milliseconds"),
        }
    }
}

} // verus!
