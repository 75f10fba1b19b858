//! Alchemy package manager configuration, as read from .npmrc files.
use vstd::prelude::*;

use crate::paths::{path_join, spec_join};
use crate::strmap::StrMap;
use crate::text::{
    chars_of, find, find_exec, has_prefix, has_prefix_exec, lemma_find_from_props, lines,
    seq_eq, slice_vec, str_eq, string_of, strip_line_end, to_owned, trim, trim_vec,
};

verus! {

/// Alchemy package manager configuration.
/// Loaded from .npmrc files with cascading priority:
/// project .npmrc > user ~/.npmrc > global /etc/npmrc
pub struct AlchemyConfig {
    pub default_registry: String,
    pub scoped_registries: StrMap<String>,
    pub auth_tokens: StrMap<String>,
    pub proxy: Option<String>,
    pub https_proxy: Option<String>,
    pub strict_ssl: bool,
    pub auto_install_peers: bool,
    pub ignore_scripts: bool,
    pub store_dir: String,
    pub metadata_cache_ttl: u64,
}

/// The value of an [`AlchemyConfig`].
pub struct ConfigModel {
    pub default_registry: Seq<char>,
    pub scoped_registries: Map<Seq<char>, Seq<char>>,
    pub auth_tokens: Map<Seq<char>, Seq<char>>,
    pub proxy: Option<Seq<char>>,
    pub https_proxy: Option<Seq<char>>,
    pub strict_ssl: bool,
    pub auto_install_peers: bool,
    pub ignore_scripts: bool,
    pub store_dir: Seq<char>,
    pub metadata_cache_ttl: u64,
}

pub open spec fn opt_str(o: Option<String>) -> Option<Seq<char>> {
    match o {
        Some(s) => Some(s@),
        None => None,
    }
}

impl View for AlchemyConfig {
    type V = ConfigModel;

    open spec fn view(&self) -> ConfigModel {
        ConfigModel {
            default_registry: self.default_registry@,
            scoped_registries: self.scoped_registries@,
            auth_tokens: self.auth_tokens@,
            proxy: opt_str(self.proxy),
            https_proxy: opt_str(self.https_proxy),
            strict_ssl: self.strict_ssl,
            auto_install_peers: self.auto_install_peers,
            ignore_scripts: self.ignore_scripts,
            store_dir: self.store_dir@,
            metadata_cache_ttl: self.metadata_cache_ttl,
        }
    }
}

// ---------------------------------------------------------------------------
// Specifications
// ---------------------------------------------------------------------------

/// The value of environment variable `name`, empty when it is not set.
pub open spec fn env_value(env: Map<Seq<char>, Seq<char>>, name: Seq<char>) -> Seq<char> {
    if env.contains_key(name) {
        env[name]
    } else {
        Seq::empty()
    }
}

/// `s` with every `${NAME}` replaced by the value of `NAME` in `env` (empty when unset);
/// an unterminated `${NAME` takes the rest of the text as the name.
pub open spec fn spec_interpolate(s: Seq<char>, env: Map<Seq<char>, Seq<char>>) -> Seq<char>
    decreases s.len(),
{
    if s.len() == 0 {
        Seq::empty()
    } else if s.len() >= 2 && s[0] == '$' && s[1] == '{' {
        let rest = s.skip(2);
        match find(rest, seq!['}']) {
            Some(j) => if 0 <= j < rest.len() {
                env_value(env, rest.take(j)) + spec_interpolate(rest.skip(j + 1), env)
            } else {
                env_value(env, rest)
            },
            None => env_value(env, rest),
        }
    } else {
        seq![s[0]] + spec_interpolate(s.skip(1), env)
    }
}

pub open spec fn is_digit(c: char) -> bool {
    '0' <= c && c <= '9'
}

/// Decimal value of a digit string.
pub open spec fn digits_value(d: Seq<char>) -> nat
    decreases d.len(),
{
    if d.len() == 0 {
        0
    } else {
        digits_value(d.drop_last()) * 10 + ((d.last() as u32) - ('0' as u32)) as nat
    }
}

/// The digits of a number: the text after an optional leading `+`.
pub open spec fn u64_digits(s: Seq<char>) -> Seq<char> {
    if s.len() > 0 && s[0] == '+' {
        s.skip(1)
    } else {
        s
    }
}

/// `str::parse::<u64>`: an optional `+`, then at least one digit, with no overflow.
pub open spec fn spec_parse_u64(s: Seq<char>) -> Option<u64> {
    let d = u64_digits(s);
    if d.len() > 0 && (forall|i: int| 0 <= i < d.len() ==> is_digit(#[trigger] d[i]))
        && digits_value(d) <= u64::MAX {
        Some(digits_value(d) as u64)
    } else {
        None
    }
}

/// The effect of one key=value setting.
pub open spec fn apply_setting(
    cfg: ConfigModel,
    key: Seq<char>,
    value: Seq<char>,
) -> ConfigModel {
    if key == "registry"@ {
        ConfigModel { default_registry: value, ..cfg }
    } else if key == "proxy"@ {
        ConfigModel { proxy: Some(value), ..cfg }
    } else if key == "https-proxy"@ {
        ConfigModel { https_proxy: Some(value), ..cfg }
    } else if key == "strict-ssl"@ {
        ConfigModel { strict_ssl: value != "false"@, ..cfg }
    } else if key == "auto-install-peers"@ {
        ConfigModel { auto_install_peers: value != "false"@, ..cfg }
    } else if key == "ignore-scripts"@ {
        ConfigModel { ignore_scripts: value == "true"@, ..cfg }
    } else if key == "cache-ttl"@ {
        match spec_parse_u64(value) {
            Some(ttl) => ConfigModel { metadata_cache_ttl: ttl, ..cfg },
            None => cfg,
        }
    } else if key.len() > 0 && key[0] == '@' {
        // Scoped registry: @scope:registry=URL
        let scope_key = key.skip(1);
        match find(scope_key, seq![':']) {
            Some(q) => if 0 <= q < scope_key.len() && scope_key.skip(q + 1) == "registry"@ {
                ConfigModel {
                    scoped_registries: cfg.scoped_registries.insert(scope_key.take(q), value),
                    ..cfg
                }
            } else {
                cfg
            },
            None => cfg,
        }
    } else {
        cfg
    }
}

/// The effect of one .npmrc line.
pub open spec fn apply_line(
    cfg: ConfigModel,
    raw: Seq<char>,
    env: Map<Seq<char>, Seq<char>>,
) -> ConfigModel {
    let line = trim(raw);
    if line.len() == 0 || line[0] == '#' || line[0] == ';' {
        cfg
    } else if has_prefix(line, "//"@) && find(line, ":_authToken="@) is Some {
        // Auth token lines: //registry.example.com/:_authToken=TOKEN
        let p = find(line, ":_authToken="@).unwrap();
        ConfigModel {
            auth_tokens: cfg.auth_tokens.insert(
                "https:"@ + line.take(p),
                spec_interpolate(line.skip(p + ":_authToken="@.len()), env),
            ),
            ..cfg
        }
    } else if has_prefix(line, "//"@) && find(line, ":_auth="@) is Some {
        // _auth (base64) lines
        let p = find(line, ":_auth="@).unwrap();
        ConfigModel {
            auth_tokens: cfg.auth_tokens.insert(
                "https:"@ + line.take(p),
                "Basic "@ + spec_interpolate(line.skip(p + ":_auth="@.len()), env),
            ),
            ..cfg
        }
    } else {
        match find(line, seq!['=']) {
            Some(p) => apply_setting(
                cfg,
                trim(line.take(p)),
                spec_interpolate(trim(line.skip(p + 1)), env),
            ),
            None => cfg,
        }
    }
}

/// The effect of a sequence of lines, in order.
pub open spec fn apply_lines(
    cfg: ConfigModel,
    ls: Seq<Seq<char>>,
    env: Map<Seq<char>, Seq<char>>,
) -> ConfigModel
    decreases ls.len(),
{
    if ls.len() == 0 {
        cfg
    } else {
        apply_lines(apply_line(cfg, ls[0], env), ls.skip(1), env)
    }
}

/// The effect of an .npmrc text: each of its lines, in order.
pub open spec fn spec_apply_npmrc(
    cfg: ConfigModel,
    content: Seq<char>,
    env: Map<Seq<char>, Seq<char>>,
) -> ConfigModel {
    apply_lines(cfg, lines(content), env)
}

/// The registry that one .npmrc line sets, if it sets one.
pub open spec fn line_registry(raw: Seq<char>, env: Map<Seq<char>, Seq<char>>) -> Option<Seq<char>> {
    let line = trim(raw);
    if line.len() == 0 || line[0] == '#' || line[0] == ';' {
        None
    } else if has_prefix(line, "//"@) && (find(line, ":_authToken="@) is Some || find(
        line,
        ":_auth="@,
    ) is Some) {
        None
    } else {
        match find(line, seq!['=']) {
            Some(p) => if trim(line.take(p)) == "registry"@ {
                Some(spec_interpolate(trim(line.skip(p + 1)), env))
            } else {
                None
            },
            None => None,
        }
    }
}

/// The registry that the last of the lines setting one sets.
pub open spec fn last_registry(ls: Seq<Seq<char>>, env: Map<Seq<char>, Seq<char>>) -> Option<
    Seq<char>,
>
    decreases ls.len(),
{
    if ls.len() == 0 {
        None
    } else {
        match last_registry(ls.skip(1), env) {
            Some(v) => Some(v),
            None => line_registry(ls[0], env),
        }
    }
}

proof fn lemma_lines_registry(cfg: ConfigModel, ls: Seq<Seq<char>>, env: Map<Seq<char>, Seq<char>>)
    ensures
        apply_lines(cfg, ls, env).default_registry == match last_registry(ls, env) {
            Some(v) => v,
            None => cfg.default_registry,
        },
    decreases ls.len(),
{
    if ls.len() > 0 {
        let next = apply_line(cfg, ls[0], env);
        assert(next.default_registry == match line_registry(ls[0], env) {
            Some(v) => v,
            None => cfg.default_registry,
        });
        lemma_lines_registry(next, ls.skip(1), env);
    }
}

/// Cascading .npmrc files: the registry after reading a file is the one that the
/// file's last `registry=` line sets, whatever came before; a file that sets none
/// keeps the registry read so far. Reading the global, the user and then the project
/// file thus lets the project file win.
pub proof fn lemma_npmrc_registry_cascade(
    cfg: ConfigModel,
    content: Seq<char>,
    env: Map<Seq<char>, Seq<char>>,
)
    ensures
        spec_apply_npmrc(cfg, content, env).default_registry == match last_registry(
            lines(content),
            env,
        ) {
            Some(v) => v,
            None => cfg.default_registry,
        },
{
    lemma_lines_registry(cfg, lines(content), env);
}

/// The registry for a package: the one of its scope when there is one, else the default.
pub open spec fn spec_registry_for(cfg: ConfigModel, name: Seq<char>) -> Seq<char> {
    if name.len() > 0 && name[0] == '@' {
        let scope = name.skip(1);
        let scope_name = match find(scope, seq!['/']) {
            Some(i) => scope.take(i),
            None => scope,
        };
        if cfg.scoped_registries.contains_key(scope_name) {
            cfg.scoped_registries[scope_name]
        } else {
            cfg.default_registry
        }
    } else {
        cfg.default_registry
    }
}

/// The token for a registry URL: exact match first, then without trailing slashes.
pub open spec fn spec_auth_for(
    tokens: Map<Seq<char>, Seq<char>>,
    url: Seq<char>,
) -> Option<Seq<char>> {
    if tokens.contains_key(url) {
        Some(tokens[url])
    } else if tokens.contains_key(crate::text::trim_end_char(url, '/')) {
        Some(tokens[crate::text::trim_end_char(url, '/')])
    } else {
        None
    }
}

/// The configuration before any .npmrc file is read, for the given home directory
/// (`None` when `HOME` is not set).
pub open spec fn spec_default_config(home: Option<Seq<char>>) -> ConfigModel {
    ConfigModel {
        default_registry: "https://registry.npmjs.org"@,
        scoped_registries: Map::empty(),
        auth_tokens: Map::empty(),
        proxy: None,
        https_proxy: None,
        strict_ssl: true,
        auto_install_peers: true,
        ignore_scripts: false,
        store_dir: spec_join(
            match home {
                Some(h) => h,
                None => "/tmp"@,
            },
            ".alchemy-store"@,
        ),
        metadata_cache_ttl: 300,
    }
}

// ---------------------------------------------------------------------------
// Executable code
// ---------------------------------------------------------------------------

/// Interpolate `${ENV_VAR}` references in a value string.
fn interpolate_env(value: &Vec<char>, env: &StrMap<String>) -> (r: String)
    ensures
        r@ == spec_interpolate(value@, env@),
{
    let mut result = String::new();
    let mut i: usize = 0;
    let n = value.len();
    assert(value@.skip(0) =~= value@);
    while i < n
        invariant
            i <= n == value@.len(),
            spec_interpolate(value@, env@) == result@ + spec_interpolate(
                value@.skip(i as int),
                env@,
            ),
        decreases n - i,
    {
        let ghost s = value@.skip(i as int);
        let ghost before = result@;
        if value[i] == '$' && i + 1 < n && value[i + 1] == '{' {
            let rest = slice_vec(value, i + 2, n);
            assert(rest@ =~= s.skip(2));
            match find_exec(&rest, &crate::text::char_vec('}')) {
                Some(j) => {
                    proof {
                        lemma_find_from_props(rest@, seq!['}'], 0);
                    }
                    let name = string_of(&slice_vec(&rest, 0, j));
                    assert(name@ =~= rest@.take(j as int));
                    append_env(&mut result, name.as_str(), env);
                    i = i + 2 + j + 1;
                    assert(value@.skip(i as int) =~= rest@.skip(j + 1));
                },
                None => {
                    let name = string_of(&rest);
                    append_env(&mut result, name.as_str(), env);
                    assert(spec_interpolate(value@.skip(n as int), env@) =~= Seq::<char>::empty());
                    assert(result@ =~= result@ + spec_interpolate(value@.skip(n as int), env@));
                    i = n;
                },
            }
        } else {
            crate::text::push_char(&mut result, value[i]);
            i = i + 1;
            assert(s.skip(1) =~= value@.skip(i as int));
            assert(result@ =~= before + seq![s[0]]);
        }
    }
    assert(value@.skip(n as int) =~= Seq::<char>::empty());
    assert(result@ =~= result@ + spec_interpolate(value@.skip(n as int), env@));
    result
}

/// Appends the value of environment variable `name` (nothing when unset).
fn append_env(result: &mut String, name: &str, env: &StrMap<String>)
    ensures
        final(result)@ == old(result)@ + env_value(env@, name@),
{
    match env.get(name) {
        Some(val) => crate::text::push_str(result, val.as_str()),
        None => {
            assert(old(result)@ =~= old(result)@ + Seq::<char>::empty());
        },
    }
}

/// `str::parse::<u64>`.
pub fn parse_u64(v: &Vec<char>) -> (r: Option<u64>)
    ensures
        r == spec_parse_u64(v@),
{
    let start: usize = if v.len() > 0 && v[0] == '+' {
        1
    } else {
        0
    };
    let ghost d = v@.skip(start as int);
    assert(d =~= u64_digits(v@));
    if start >= v.len() {
        return None;
    }
    let mut k = start;
    while k < v.len()
        invariant
            start <= k <= v.len(),
            d == v@.skip(start as int),
            d == u64_digits(v@),
            forall|m: int| 0 <= m < k - start ==> is_digit(#[trigger] d[m]),
        decreases v.len() - k,
    {
        if !('0' <= v[k] && v[k] <= '9') {
            assert(!is_digit(d[k - start]));
            assert(!(forall|m: int| 0 <= m < d.len() ==> is_digit(#[trigger] d[m])));
            return None;
        }
        k = k + 1;
    }
    let mut acc: u64 = 0;
    let mut i = start;
    while i < v.len()
        invariant
            start <= i <= v.len(),
            d == v@.skip(start as int),
            d == u64_digits(v@),
            d.len() > 0,
            forall|m: int| 0 <= m < d.len() ==> is_digit(#[trigger] d[m]),
            acc == digits_value(d.take(i - start)),
        decreases v.len() - i,
    {
        let c = v[i];
        assert(is_digit(d[i - start]));
        let dv = (c as u32 - '0' as u32) as u64;
        assert(d.take(i - start + 1).drop_last() =~= d.take(i - start));
        assert(d.take(i - start + 1).last() == c);
        match acc.checked_mul(10) {
            Some(m) => match m.checked_add(dv) {
                Some(a) => {
                    acc = a;
                },
                None => {
                    proof {
                        lemma_digits_prefix_bound(d, i - start + 1);
                        assert(digits_value(d.take(i - start + 1)) == m + dv);
                        assert(digits_value(d) > u64::MAX);
                    }
                    return None;
                },
            },
            None => {
                proof {
                    lemma_digits_prefix_bound(d, i - start + 1);
                    assert(digits_value(d.take(i - start + 1)) >= acc * 10);
                    assert(digits_value(d) > u64::MAX);
                }
                return None;
            },
        }
        i = i + 1;
    }
    assert(d.take(d.len() as int) =~= d);
    Some(acc)
}

/// A digit string's value is at least that of any of its prefixes.
proof fn lemma_digits_prefix_bound(d: Seq<char>, k: int)
    requires
        0 <= k <= d.len(),
        forall|i: int| 0 <= i < d.len() ==> is_digit(#[trigger] d[i]),
    ensures
        digits_value(d.take(k)) <= digits_value(d),
    decreases d.len() - k,
{
    if k < d.len() {
        lemma_digits_prefix_bound(d, k + 1);
        assert(d.take(k + 1).drop_last() =~= d.take(k));
    } else {
        assert(d.take(k) =~= d);
    }
}

fn lit(s: &str) -> (v: Vec<char>)
    ensures
        v@ == s@,
{
    chars_of(s)
}

impl AlchemyConfig {
    /// The configuration before any .npmrc file is read; `home` is the value of the
    /// `HOME` environment variable, if set.
    pub fn from_home(home: Option<&str>) -> (c: AlchemyConfig)
        ensures
            c@ == spec_default_config(
                match home {
                    Some(h) => Some(h@),
                    None => None,
                },
            ),
    {
        let home_dir = match home {
            Some(h) => h,
            None => "/tmp",
        };
        AlchemyConfig {
            default_registry: to_owned("https://registry.npmjs.org"),
            scoped_registries: StrMap::new(),
            auth_tokens: StrMap::new(),
            proxy: None,
            https_proxy: None,
            strict_ssl: true,
            auto_install_peers: true,
            ignore_scripts: false,
            store_dir: path_join(home_dir, ".alchemy-store"),
            metadata_cache_ttl: 300,
        }
    }

    /// Overrides from the environment variables `NPM_CONFIG_REGISTRY`, `HTTP_PROXY` and
    /// `HTTPS_PROXY`, each given when set.
    pub fn apply_env_overrides(
        &mut self,
        registry: Option<String>,
        http_proxy: Option<String>,
        https_proxy: Option<String>,
    )
        ensures
            final(self)@ == (ConfigModel {
                default_registry: match registry {
                    Some(r) => r@,
                    None => old(self)@.default_registry,
                },
                proxy: match http_proxy {
                    Some(p) => Some(p@),
                    None => old(self)@.proxy,
                },
                https_proxy: match https_proxy {
                    Some(p) => Some(p@),
                    None => old(self)@.https_proxy,
                },
                ..old(self)@
            }),
    {
        if let Some(val) = registry {
            self.default_registry = val;
        }
        if let Some(val) = http_proxy {
            self.proxy = Some(val);
        }
        if let Some(val) = https_proxy {
            self.https_proxy = Some(val);
        }
    }

    fn apply_setting(&mut self, key: &Vec<char>, value: String)
        ensures
            final(self)@ == apply_setting(old(self)@, key@, value@),
    {
        if seq_eq(key, &lit("registry")) {
            self.default_registry = value;
        } else if seq_eq(key, &lit("proxy")) {
            self.proxy = Some(value);
        } else if seq_eq(key, &lit("https-proxy")) {
            self.https_proxy = Some(value);
        } else if seq_eq(key, &lit("strict-ssl")) {
            self.strict_ssl = !str_eq(value.as_str(), "false");
        } else if seq_eq(key, &lit("auto-install-peers")) {
            self.auto_install_peers = !str_eq(value.as_str(), "false");
        } else if seq_eq(key, &lit("ignore-scripts")) {
            self.ignore_scripts = str_eq(value.as_str(), "true");
        } else if seq_eq(key, &lit("cache-ttl")) {
            if let Some(ttl) = parse_u64(&chars_of(value.as_str())) {
                self.metadata_cache_ttl = ttl;
            }
        } else if key.len() > 0 && key[0] == '@' {
            // Scoped registry: @scope:registry=URL
            let scope_key = slice_vec(key, 1, key.len());
            assert(scope_key@ =~= key@.skip(1));
            if let Some(q) = find_exec(&scope_key, &crate::text::char_vec(':')) {
                proof {
                    lemma_find_from_props(scope_key@, seq![':'], 0);
                }
                let sub_key = slice_vec(&scope_key, q + 1, scope_key.len());
                assert(sub_key@ =~= scope_key@.skip(q + 1));
                if seq_eq(&sub_key, &lit("registry")) {
                    let scope = slice_vec(&scope_key, 0, q);
                    assert(scope@ =~= scope_key@.take(q as int));
                    self.scoped_registries.insert(string_of(&scope), value);
                }
            }
        }
    }

    fn apply_line(&mut self, raw: &Vec<char>, env: &StrMap<String>)
        ensures
            final(self)@ == apply_line(old(self)@, raw@, env@),
    {
        let line = trim_vec(raw);
        // Skip comments and empty lines
        if line.len() == 0 || line[0] == '#' || line[0] == ';' {
            return;
        }
        // Auth token lines: //registry.example.com/:_authToken=TOKEN
        if has_prefix_exec(&line, &lit("//")) {
            let tok = lit(":_authToken=");
            if let Some(p) = find_exec(&line, &tok) {
                proof {
                    lemma_find_from_props(line@, tok@, 0);
                }
                let registry_url = self.prefixed_url(&line, p);
                let rest = slice_vec(&line, p + tok.len(), line.len());
                assert(rest@ =~= line@.skip(p + tok@.len()));
                let token = interpolate_env(&rest, env);
                self.auth_tokens.insert(registry_url, token);
                return;
            }
            // _auth (base64) lines — also supported
            let au = lit(":_auth=");
            if let Some(p) = find_exec(&line, &au) {
                proof {
                    lemma_find_from_props(line@, au@, 0);
                }
                let registry_url = self.prefixed_url(&line, p);
                let rest = slice_vec(&line, p + au.len(), line.len());
                assert(rest@ =~= line@.skip(p + au@.len()));
                let auth = interpolate_env(&rest, env);
                let mut basic = to_owned("Basic ");
                crate::text::push_str(&mut basic, auth.as_str());
                self.auth_tokens.insert(registry_url, basic);
                return;
            }
        }
        // Key=value lines
        if let Some(p) = find_exec(&line, &crate::text::char_vec('=')) {
            proof {
                lemma_find_from_props(line@, seq!['='], 0);
            }
            let k = slice_vec(&line, 0, p);
            assert(k@ =~= line@.take(p as int));
            let key = trim_vec(&k);
            let v = slice_vec(&line, p + 1, line.len());
            assert(v@ =~= line@.skip(p + 1));
            let value = interpolate_env(&trim_vec(&v), env);
            self.apply_setting(&key, value);
        }
    }

    /// "https:" followed by `line[..p]`.
    fn prefixed_url(&self, line: &Vec<char>, p: usize) -> (r: String)
        requires
            p <= line.len(),
        ensures
            r@ == "https:"@ + line@.take(p as int),
    {
        let mut url = to_owned("https:");
        let part = string_of(&slice_vec(line, 0, p));
        crate::text::push_str(&mut url, part.as_str());
        assert(part@ =~= line@.take(p as int));
        url
    }

    /// Apply settings from an .npmrc file content; `env` holds the environment variables
    /// that `${NAME}` references are replaced with.
    pub fn apply_npmrc(&mut self, content: &str, env: &StrMap<String>)
        ensures
            final(self)@ == spec_apply_npmrc(old(self)@, content@, env@),
    {
        let v = chars_of(content);
        let mut pos: usize = 0;
        assert(v@.skip(0) =~= v@);
        while pos < v.len()
            invariant
                pos <= v.len(),
                v@ == content@,
                spec_apply_npmrc(old(self)@, content@, env@) == apply_lines(
                    self@,
                    lines(v@.skip(pos as int)),
                    env@,
                ),
            decreases v.len() - pos,
        {
            let rest = slice_vec(&v, pos, v.len());
            assert(rest@ =~= v@.skip(pos as int));
            match find_exec(&rest, &crate::text::char_vec('\n')) {
                Some(i) => {
                    proof {
                        lemma_find_from_props(rest@, seq!['\n'], 0);
                    }
                    let seg = slice_vec(&rest, 0, i + 1);
                    let line = strip_line_end_exec(&seg);
                    let ghost ls = lines(rest@);
                    assert(ls[0] == line@);
                    assert(ls.skip(1) =~= lines(rest@.subrange(i + 1, rest@.len() as int)));
                    self.apply_line(&line, env);
                    pos = pos + i + 1;
                    assert(rest@.subrange(i + 1, rest@.len() as int) =~= v@.skip(pos as int));
                },
                None => {
                    let ghost ls = lines(rest@);
                    assert(ls =~= seq![rest@]);
                    self.apply_line(&rest, env);
                    assert(ls.skip(1) =~= Seq::<Seq<char>>::empty());
                    pos = v.len();
                    assert(lines(v@.skip(pos as int)) =~= Seq::<Seq<char>>::empty()) by {
                        assert(v@.skip(pos as int) =~= Seq::<char>::empty());
                    }
                },
            }
        }
        proof {
            assert(v@.skip(pos as int) =~= Seq::<char>::empty());
            assert(lines(v@.skip(pos as int)) =~= Seq::<Seq<char>>::empty());
        }
    }

    /// Get the registry URL for a given package name (respecting scoped registries).
    pub fn registry_for_package(&self, name: &str) -> (r: &str)
        ensures
            r@ == spec_registry_for(self@, name@),
    {
        let v = chars_of(name);
        if v.len() > 0 && v[0] == '@' {
            let scope = slice_vec(&v, 1, v.len());
            assert(scope@ =~= name@.skip(1));
            let scope_name = match find_exec(&scope, &crate::text::char_vec('/')) {
                Some(i) => {
                    proof {
                        lemma_find_from_props(scope@, seq!['/'], 0);
                    }
                    let sn = slice_vec(&scope, 0, i);
                    assert(sn@ =~= scope@.take(i as int));
                    sn
                },
                None => scope,
            };
            let key = string_of(&scope_name);
            if let Some(url) = self.scoped_registries.get(key.as_str()) {
                return url.as_str();
            }
        }
        self.default_registry.as_str()
    }

    /// Get the auth token for a given registry URL.
    pub fn auth_for_registry(&self, registry_url: &str) -> (r: Option<&str>)
        ensures
            match r {
                Some(t) => spec_auth_for(self.auth_tokens@, registry_url@) == Some(t@),
                None => spec_auth_for(self.auth_tokens@, registry_url@) is None,
            },
    {
        // Try exact match
        if let Some(token) = self.auth_tokens.get(registry_url) {
            return Some(token.as_str());
        }
        // Try matching by stripping trailing slash
        let v = chars_of(registry_url);
        let n = crate::text::trim_end_char_len(&v, '/');
        let normalized = string_of(&slice_vec(&v, 0, n));
        if let Some(token) = self.auth_tokens.get(normalized.as_str()) {
            return Some(token.as_str());
        }
        None
    }
}

/// The line as `str::lines` yields it from a segment ending in `'\n'`.
fn strip_line_end_exec(seg: &Vec<char>) -> (r: Vec<char>)
    ensures
        r@ == strip_line_end(seg@),
{
    if seg.len() > 0 && seg[seg.len() - 1] == '\n' {
        let t = slice_vec(seg, 0, seg.len() - 1);
        assert(t@ =~= seg@.drop_last());
        if t.len() > 0 && t[t.len() - 1] == '\r' {
            let u = slice_vec(&t, 0, t.len() - 1);
            assert(u@ =~= t@.drop_last());
            u
        } else {
            t
        }
    } else {
        slice_vec(seg, 0, seg.len())
    }
}

} // verus!
