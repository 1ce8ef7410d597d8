//! Configuration: the entries of a configuration object, and their
//! resolution into one setting per rule, after markdownlint's
//! `getEffectiveConfig`: a `default` key sets the baseline, then each key
//! (a rule's name or alias, or a tag) sets the rules it names, in order.

use vstd::prelude::*;

use crate::rules::Severity;
use crate::rules::options::{Number, OptValue, Options, Scalar, lookup};
use crate::rules::registry::{RuleId, all_rules, rule_count, spec_all_rules, spec_rule_names, spec_rule_tags};
use crate::rules::slice_eq;
use crate::text::{ascii_upper, ascii_uppercase, chars_of, is_whitespace, str_to_uppercase, uppercase};

verus! {

/// A top-level configuration value.
#[derive(Clone, Debug)]
pub enum ConfigValue {
    One(Scalar),
    List,
    Object(Options),
}

/// A parsed, merged configuration object: its entries in order.
#[derive(Clone, Debug)]
pub struct Config {
    pub entries: Vec<(Vec<char>, ConfigValue)>,
}

/// Effective configuration of one rule.
#[derive(Clone, Debug)]
pub struct RuleConfig {
    pub enabled: bool,
    pub severity: Severity,
    pub options: Options,
}

/// One setting per rule, in the order of `all_rules`.
#[derive(Clone, Debug)]
pub struct ResolvedConfig {
    pub rules: Vec<RuleConfig>,
}

/// A falsy value: `false`, null, zero, or the empty string.
pub open spec fn spec_is_falsy(v: Scalar) -> bool {
    match v {
        Scalar::Bool(b) => !b,
        Scalar::Null => true,
        Scalar::Num(n) => n.zero,
        Scalar::Str(s) => s@.len() == 0,
        Scalar::Other => false,
    }
}

/// Whether a value is falsy.
pub fn is_falsy(v: &Scalar) -> (r: bool)
    ensures
        r == spec_is_falsy(*v),
{
    match v {
        Scalar::Bool(b) => !*b,
        Scalar::Null => true,
        Scalar::Num(n) => n.zero,
        Scalar::Str(s) => s.len() == 0,
        Scalar::Other => false,
    }
}

/// A value is the string `warning`.
pub open spec fn is_warning(v: Scalar) -> bool {
    v matches Scalar::Str(s) && s@ == "warning"@
}

fn scalar_is_warning(v: &Scalar) -> (r: bool)
    ensures
        r == is_warning(*v),
{
    match v {
        Scalar::Str(s) => crate::rules::md003::is_text(s, "warning"),
        _ => false,
    }
}

/// The value of an option entry as one value (`Other` for an array).
pub open spec fn entry_scalar(v: OptValue) -> Scalar {
    match v {
        OptValue::One(s) => s,
        OptValue::List(_) => Scalar::Other,
    }
}

/// What one configuration value says of the rules it names: enabled,
/// severity, and options (for an object, its entries without `enabled`
/// and `severity`).
pub open spec fn spec_interpret(v: ConfigValue) -> (bool, Severity) {
    match v {
        ConfigValue::One(s) => if spec_is_falsy(s) {
            (false, Severity::Error)
        } else {
            (true, if is_warning(s) {
                Severity::Warning
            } else {
                Severity::Error
            })
        },
        ConfigValue::List => (true, Severity::Error),
        ConfigValue::Object(o) => {
            let enabled = match lookup(o.entries@, "enabled"@) {
                Some(e) => !spec_is_falsy(entry_scalar(e)),
                None => true,
            };
            let severity = match lookup(o.entries@, "severity"@) {
                Some(e) => if is_warning(entry_scalar(e)) {
                    Severity::Warning
                } else {
                    Severity::Error
                },
                None => Severity::Error,
            };
            (enabled, severity)
        },
    }
}

fn opt_is_falsy(v: &OptValue) -> (r: bool)
    ensures
        r == spec_is_falsy(entry_scalar(*v)),
{
    match v {
        OptValue::One(s) => is_falsy(s),
        OptValue::List(_) => false,
    }
}

fn opt_is_warning(v: &OptValue) -> (r: bool)
    ensures
        r == is_warning(entry_scalar(*v)),
{
    match v {
        OptValue::One(s) => scalar_is_warning(s),
        OptValue::List(_) => false,
    }
}

impl Scalar {
    /// A copy of the value.
    pub fn clone_scalar(&self) -> (r: Scalar)
        ensures
            scalar_v(r) == scalar_v(*self),
    {
        match self {
            Scalar::Null => Scalar::Null,
            Scalar::Bool(b) => Scalar::Bool(*b),
            Scalar::Num(n) => Scalar::Num(*n),
            Scalar::Str(s) => {
                let c = crate::text::slice_vec(s, 0, s.len());
                proof {
                    assert(c@ =~= s@);
                }
                Scalar::Str(c)
            },
            Scalar::Other => Scalar::Other,
        }
    }
}

/// A copy of an option value, keeping its view.
fn clone_opt(v: &OptValue) -> (r: OptValue)
    ensures
        opt_v(r) == opt_v(*v),
{
    match v {
        OptValue::One(s) => OptValue::One(s.clone_scalar()),
        OptValue::List(items) => {
            let mut out: Vec<Scalar> = Vec::new();
            let mut i: usize = 0;
            while i < items.len()
                invariant
                    i <= items@.len(),
                    scalars_v(out@) == scalars_v(items@).take(i as int),
                decreases items@.len() - i,
            {
                let c = items[i].clone_scalar();
                let ghost before = out@;
                out.push(c);
                proof {
                    assert(scalars_v(before).len() == before.len());
                    assert(before.len() == i);
                    assert forall|q: int| 0 <= q < i + 1 implies #[trigger] scalars_v(out@)[q] == scalars_v(items@).take(i + 1)[q] by {
                        if q < i {
                            assert(out@[q] == before[q]);
                            assert(scalars_v(before)[q] == scalars_v(items@).take(i as int)[q]);
                        }
                    }
                    assert(scalars_v(out@) =~= scalars_v(items@).take(i + 1));
                }
                i += 1;
            }
            proof {
                assert(scalars_v(items@).take(i as int) =~= scalars_v(items@));
            }
            OptValue::List(out)
        },
    }
}

/// The options among the first `i` entries of an object value: all but
/// `enabled` and `severity`.
pub open spec fn object_options(e: Seq<(Vec<char>, OptValue)>, i: int) -> Seq<(Seq<char>, OptV)>
    decreases i,
{
    if i <= 0 {
        Seq::empty()
    } else {
        let prev = object_options(e, i - 1);
        let key = e[i - 1].0@;
        if key != "enabled"@ && key != "severity"@ {
            prev.push((key, opt_v(e[i - 1].1)))
        } else {
            prev
        }
    }
}

/// The options a configuration value gives a rule.
pub open spec fn spec_value_options(v: ConfigValue) -> Seq<(Seq<char>, OptV)> {
    match v {
        ConfigValue::Object(o) => object_options(o.entries@, o.entries@.len() as int),
        _ => Seq::empty(),
    }
}

/// Interpret one configuration value: (enabled, severity, options).
pub fn interpret_value(value: &ConfigValue) -> (r: (bool, Severity, Options))
    ensures
        (r.0, r.1) == spec_interpret(*value),
        entries_v(r.2.entries@) == spec_value_options(*value),
{
    match value {
        ConfigValue::One(s) => {
            if is_falsy(s) {
                (false, Severity::Error, Options::empty())
            } else {
                let sev = if scalar_is_warning(s) {
                    Severity::Warning
                } else {
                    Severity::Error
                };
                (true, sev, Options::empty())
            }
        },
        ConfigValue::List => (true, Severity::Error, Options::empty()),
        ConfigValue::Object(o) => {
            let enabled = match o.get("enabled") {
                Some(e) => !opt_is_falsy(e),
                None => true,
            };
            let severity = match o.get("severity") {
                Some(e) => if opt_is_warning(e) {
                    Severity::Warning
                } else {
                    Severity::Error
                },
                None => Severity::Error,
            };
            let mut opts: Vec<(Vec<char>, OptValue)> = Vec::new();
            let mut i: usize = 0;
            proof {
                assert(entries_v(opts@) =~= object_options(o.entries@, 0));
            }
            while i < o.entries.len()
                invariant
                    i <= o.entries@.len(),
                    entries_v(opts@) == object_options(o.entries@, i as int),
                decreases o.entries@.len() - i,
            {
                let key = &o.entries[i].0;
                let ghost before = opts@;
                if !crate::rules::options::str_eq_chars(key, "enabled")
                    && !crate::rules::options::str_eq_chars(key, "severity") {
                    let kc = crate::text::slice_vec(key, 0, key.len());
                    let vc = clone_opt(&o.entries[i].1);
                    proof {
                        assert(kc@ =~= key@);
                    }
                    opts.push((kc, vc));
                    proof {
                        assert(entries_v(opts@) =~= entries_v(before).push((key@, opt_v(o.entries@[i as int].1))));
                    }
                }
                i += 1;
            }
            (enabled, severity, Options { entries: opts })
        },
    }
}

/// `s` with ASCII letters in upper case.
pub open spec fn upper_ascii(s: Seq<char>) -> Seq<char> {
    Seq::new(s.len(), |k: int| ascii_upper(s[k]))
}

/// One of `ks`, upper-cased, is `key`.
pub open spec fn some_key_is(ks: Seq<Seq<char>>, key: Seq<char>) -> bool {
    exists|i: int| 0 <= i < ks.len() && upper_ascii(ks[i]) == key
}

/// Rule `r` answers to the upper-cased `key`: one of its names or tags,
/// upper-cased, is `key`.
pub open spec fn spec_rule_matches(r: RuleId, key: Seq<char>) -> bool {
    some_key_is(spec_rule_names(r), key) || some_key_is(spec_rule_tags(r), key)
}

/// Whether rule `r` answers to the upper-cased `key`.
pub fn rule_matches(r: RuleId, key: &[char]) -> (b: bool)
    ensures
        b == spec_rule_matches(r, key@),
{
    let names = r.names();
    let ghost nv = names@.map_values(|x: &'static str| x@);
    let mut i: usize = 0;
    while i < names.len()
        invariant
            i <= names@.len(),
            nv == names@.map_values(|x: &'static str| x@),
            nv == spec_rule_names(r),
            forall|q: int| 0 <= q < i ==> upper_ascii(#[trigger] nv[q]) != key@,
        decreases names@.len() - i,
    {
        let u = ascii_uppercase(&chars_of(names[i]));
        proof {
            assert(u@ =~= upper_ascii(nv[i as int]));
        }
        if slice_eq(&u, key) {
            return true;
        }
        i += 1;
    }
    let tags = r.tags();
    let ghost tv = tags@.map_values(|x: &'static str| x@);
    let mut j: usize = 0;
    while j < tags.len()
        invariant
            j <= tags@.len(),
            tv == tags@.map_values(|x: &'static str| x@),
            tv == spec_rule_tags(r),
            !some_key_is(spec_rule_names(r), key@),
            forall|q: int| 0 <= q < j ==> upper_ascii(#[trigger] tv[q]) != key@,
        decreases tags@.len() - j,
    {
        let u = ascii_uppercase(&chars_of(tags[j]));
        proof {
            assert(u@ =~= upper_ascii(tv[j as int]));
        }
        if slice_eq(&u, key) {
            return true;
        }
        j += 1;
    }
    false
}

/// A scalar by value.
pub enum ScalarV {
    Null,
    Bool(bool),
    Num(Number),
    Str(Seq<char>),
    Other,
}

/// An option value by value.
pub enum OptV {
    One(ScalarV),
    List(Seq<ScalarV>),
}

/// A configuration value by value.
pub enum ValueV {
    One(ScalarV),
    List,
    Object(Seq<(Seq<char>, OptV)>),
}

pub open spec fn scalar_v(s: Scalar) -> ScalarV {
    match s {
        Scalar::Null => ScalarV::Null,
        Scalar::Bool(b) => ScalarV::Bool(b),
        Scalar::Num(n) => ScalarV::Num(n),
        Scalar::Str(t) => ScalarV::Str(t@),
        Scalar::Other => ScalarV::Other,
    }
}

pub open spec fn scalars_v(s: Seq<Scalar>) -> Seq<ScalarV> {
    s.map_values(|x: Scalar| scalar_v(x))
}

pub open spec fn opt_v(o: OptValue) -> OptV {
    match o {
        OptValue::One(x) => OptV::One(scalar_v(x)),
        OptValue::List(items) => OptV::List(scalars_v(items@)),
    }
}

pub open spec fn entries_v(e: Seq<(Vec<char>, OptValue)>) -> Seq<(Seq<char>, OptV)> {
    e.map_values(|x: (Vec<char>, OptValue)| (x.0@, opt_v(x.1)))
}

/// A configuration value by value: its text by its characters.
pub open spec fn value_v(v: ConfigValue) -> ValueV {
    match v {
        ConfigValue::One(x) => ValueV::One(scalar_v(x)),
        ConfigValue::List => ValueV::List,
        ConfigValue::Object(o) => ValueV::Object(entries_v(o.entries@)),
    }
}

/// A configuration's entries by value.
pub open spec fn cfg_deep(e: Seq<(Vec<char>, ConfigValue)>) -> Seq<(Seq<char>, ValueV)> {
    e.map_values(|x: (Vec<char>, ConfigValue)| (x.0@, value_v(x.1)))
}

/// The index of the first entry from `i` on named `key`, by value.
pub open spec fn first_key_deep(v: Seq<(Seq<char>, ValueV)>, key: Seq<char>, i: int) -> Option<int>
    decreases v.len() - i,
{
    if i < 0 || i >= v.len() {
        None
    } else if v[i].0 == key {
        Some(i)
    } else {
        first_key_deep(v, key, i + 1)
    }
}

/// `key` set to `value`, by value: the first entry of that name replaced,
/// or a new entry appended.
pub open spec fn set_deep(v: Seq<(Seq<char>, ValueV)>, key: Seq<char>, value: ValueV) -> Seq<(Seq<char>, ValueV)> {
    match first_key_deep(v, key, 0) {
        Some(i) => v.update(i, (key, value)),
        None => v.push((key, value)),
    }
}

/// The first `k` entries of `over` set, in order, on `v`
/// (`Object.assign`).
pub open spec fn merge_deep(v: Seq<(Seq<char>, ValueV)>, over: Seq<(Seq<char>, ValueV)>, k: int) -> Seq<
    (Seq<char>, ValueV),
>
    decreases k,
{
    if k <= 0 {
        v
    } else {
        let prev = merge_deep(v, over, k - 1);
        set_deep(prev, over[k - 1].0, over[k - 1].1)
    }
}

proof fn lemma_first_key_deep(e: Seq<(Vec<char>, ConfigValue)>, key: Seq<char>, i: int)
    ensures
        first_key_from(cfg_view(e), key, i) == first_key_deep(cfg_deep(e), key, i),
    decreases e.len() - i,
{
    if 0 <= i < e.len() {
        assert(cfg_view(e)[i].0 == e[i].0@);
        assert(cfg_deep(e)[i].0 == e[i].0@);
        lemma_first_key_deep(e, key, i + 1);
    }
}

/// A configuration's entries, keys by their characters.
pub open spec fn cfg_view(e: Seq<(Vec<char>, ConfigValue)>) -> Seq<(Seq<char>, ConfigValue)> {
    e.map_values(|x: (Vec<char>, ConfigValue)| (x.0@, x.1))
}

/// The characters of each name.
pub open spec fn names_view(v: Seq<Vec<char>>) -> Seq<Seq<char>> {
    v.map_values(|x: Vec<char>| x@)
}

/// The index of the first entry from `i` on named `key`.
pub open spec fn first_key_from(v: Seq<(Seq<char>, ConfigValue)>, key: Seq<char>, i: int) -> Option<int>
    decreases v.len() - i,
{
    if i < 0 || i >= v.len() {
        None
    } else if v[i].0 == key {
        Some(i)
    } else {
        first_key_from(v, key, i + 1)
    }
}

/// The index of the first entry named `key`.
pub open spec fn first_key(v: Seq<(Seq<char>, ConfigValue)>, key: Seq<char>) -> Option<int> {
    first_key_from(v, key, 0)
}

pub proof fn lemma_first_key_found(v: Seq<(Seq<char>, ConfigValue)>, key: Seq<char>, i: int)
    requires
        0 <= i,
    ensures
        first_key_from(v, key, i) matches Some(j) ==> i <= j < v.len() && v[j].0 == key,
    decreases v.len() - i,
{
    if i < v.len() && v[i].0 != key {
        lemma_first_key_found(v, key, i + 1);
    }
}

/// `key` set to `value`: the first entry of that name replaced, or a new
/// entry appended.
pub open spec fn spec_set(v: Seq<(Seq<char>, ConfigValue)>, key: Seq<char>, value: ConfigValue) -> Seq<
    (Seq<char>, ConfigValue),
> {
    match first_key(v, key) {
        Some(i) => v.update(i, (key, value)),
        None => v.push((key, value)),
    }
}

/// The first `k` of `names` enabled: each is set to `true` when absent or
/// falsy.
pub open spec fn enable_all(v: Seq<(Seq<char>, ConfigValue)>, names: Seq<Seq<char>>, k: int) -> Seq<
    (Seq<char>, ConfigValue),
>
    decreases k,
{
    if k <= 0 {
        v
    } else {
        let prev = enable_all(v, names, k - 1);
        let falsy = match first_key(prev, names[k - 1]) {
            Some(i) => match prev[i].1 {
                ConfigValue::One(s) => spec_is_falsy(s),
                _ => false,
            },
            None => true,
        };
        if falsy {
            spec_set(prev, names[k - 1], ConfigValue::One(Scalar::Bool(true)))
        } else {
            prev
        }
    }
}

/// The first `k` of `names` set to `false`.
pub open spec fn disable_all(v: Seq<(Seq<char>, ConfigValue)>, names: Seq<Seq<char>>, k: int) -> Seq<
    (Seq<char>, ConfigValue),
>
    decreases k,
{
    if k <= 0 {
        v
    } else {
        spec_set(disable_all(v, names, k - 1), names[k - 1], ConfigValue::One(Scalar::Bool(false)))
    }
}

/// The `default` setting: that of the first entry from `i` whose key,
/// upper-cased, is `DEFAULT` (enabled unless falsy; a warning for the
/// string `warning`), or enabled errors when there is none.
pub open spec fn default_from(v: Seq<(Seq<char>, ConfigValue)>, i: int) -> (bool, Severity)
    decreases v.len() - i,
{
    if i < 0 || i >= v.len() {
        (true, Severity::Error)
    } else if str_to_uppercase(v[i].0) == "DEFAULT"@ {
        match v[i].1 {
            ConfigValue::One(s) => (!spec_is_falsy(s), if is_warning(s) {
                Severity::Warning
            } else {
                Severity::Error
            }),
            _ => (true, Severity::Error),
        }
    } else {
        default_from(v, i + 1)
    }
}

/// The (enabled, severity) of rule `r` after the first `i` entries: the
/// last of them whose key names the rule (by name, alias or tag) decides,
/// else the default.
pub open spec fn rule_setting(v: Seq<(Seq<char>, ConfigValue)>, r: RuleId, i: int) -> (bool, Severity)
    decreases i,
{
    if i <= 0 {
        default_from(v, 0)
    } else if spec_rule_matches(r, str_to_uppercase(v[i - 1].0)) {
        spec_interpret(v[i - 1].1)
    } else {
        rule_setting(v, r, i - 1)
    }
}

/// The options of rule `r` after the first `i` entries: those of the last
/// entry that names it (none when no entry does).
pub open spec fn rule_options(v: Seq<(Seq<char>, ConfigValue)>, r: RuleId, i: int) -> Seq<(Seq<char>, OptV)>
    decreases i,
{
    if i <= 0 {
        Seq::empty()
    } else if spec_rule_matches(r, str_to_uppercase(v[i - 1].0)) {
        spec_value_options(v[i - 1].1)
    } else {
        rule_options(v, r, i - 1)
    }
}

impl Config {
    /// An empty configuration.
    pub fn empty() -> (c: Config)
        ensures
            c.entries@.len() == 0,
    {
        Config { entries: Vec::new() }
    }

    /// Apply `--enable` / `--disable` overrides: an enabled rule whose value
    /// is falsy or absent becomes `true`; a disabled rule becomes `false`.
    pub fn apply_enable_disable(&mut self, enable: &Vec<Vec<char>>, disable: &Vec<Vec<char>>)
        ensures
            cfg_view(final(self).entries@) == disable_all(
                enable_all(cfg_view(old(self).entries@), names_view(enable@), enable@.len() as int),
                names_view(disable@),
                disable@.len() as int,
            ),
    {
        let ghost start = cfg_view(self.entries@);
        let mut k: usize = 0;
        while k < enable.len()
            invariant
                k <= enable@.len(),
                cfg_view(self.entries@) == enable_all(start, names_view(enable@), k as int),
            decreases enable@.len() - k,
        {
            let name = &enable[k];
            let ghost prev = cfg_view(self.entries@);
            let found = self.find(name);
            let falsy = match found {
                Some(i) => match &self.entries[i].1 {
                    ConfigValue::One(s) => is_falsy(s),
                    _ => false,
                },
                None => true,
            };
            proof {
                assert(names_view(enable@)[k as int] == name@);
                if let Some(i) = found {
                    assert(prev[i as int].1 == self.entries@[i as int].1);
                }
            }
            if falsy {
                self.set(name, ConfigValue::One(Scalar::Bool(true)));
            }
            k += 1;
        }
        let ghost mid = cfg_view(self.entries@);
        let mut k: usize = 0;
        while k < disable.len()
            invariant
                k <= disable@.len(),
                cfg_view(self.entries@) == disable_all(mid, names_view(disable@), k as int),
            decreases disable@.len() - k,
        {
            proof {
                assert(names_view(disable@)[k as int] == disable@[k as int]@);
            }
            self.set(&disable[k], ConfigValue::One(Scalar::Bool(false)));
            k += 1;
        }
    }

    /// Index of the first entry named `key`.
    pub fn find(&self, key: &[char]) -> (r: Option<usize>)
        ensures
            match r {
                Some(i) => first_key(cfg_view(self.entries@), key@) == Some(i as int) && i
                    < self.entries@.len() && self.entries@[i as int].0@ == key@,
                None => first_key(cfg_view(self.entries@), key@) is None,
            },
    {
        let ghost v = cfg_view(self.entries@);
        let mut i: usize = 0;
        while i < self.entries.len()
            invariant
                i <= self.entries@.len(),
                v == cfg_view(self.entries@),
                first_key_from(v, key@, 0) == first_key_from(v, key@, i as int),
            decreases self.entries@.len() - i,
        {
            proof {
                assert(v[i as int].0 == self.entries@[i as int].0@);
            }
            if slice_eq(&self.entries[i].0, key) {
                return Some(i);
            }
            i += 1;
        }
        None
    }

    /// Set entry `key` to `value`: in place when present, else appended.
    pub fn set(&mut self, key: &[char], value: ConfigValue)
        ensures
            cfg_view(final(self).entries@) == spec_set(cfg_view(old(self).entries@), key@, value),
    {
        let ghost v = cfg_view(self.entries@);
        match self.find(key) {
            Some(i) => {
                let k = crate::text::slice_vec(&self.entries[i].0, 0, self.entries[i].0.len());
                proof {
                    lemma_first_key_found(v, key@, 0);
                    assert(k@ =~= key@);
                }
                self.entries.set(i, (k, value));
                proof {
                    assert(cfg_view(self.entries@) =~= v.update(i as int, (key@, value)));
                }
            },
            None => {
                let k = crate::text::slice_vec(key, 0, key.len());
                proof {
                    assert(k@ =~= key@);
                }
                self.entries.push((k, value));
                proof {
                    assert(cfg_view(self.entries@) =~= v.push((key@, value)));
                }
            },
        }
    }

    /// Overlay `over`: each of its entries replaces the entry of the same
    /// name, or is appended.
    #[verifier::rlimit(30)]
    pub fn merge_shallow(&mut self, over: &Config)
        ensures
            cfg_deep(final(self).entries@) == merge_deep(
                cfg_deep(old(self).entries@),
                cfg_deep(over.entries@),
                over.entries@.len() as int,
            ),
    {
        let ghost v0 = cfg_deep(self.entries@);
        let ghost ov = cfg_deep(over.entries@);
        let mut k: usize = 0;
        while k < over.entries.len()
            invariant
                k <= over.entries@.len(),
                ov == cfg_deep(over.entries@),
                cfg_deep(self.entries@) == merge_deep(v0, ov, k as int),
            decreases over.entries@.len() - k,
        {
            let v = clone_config_value(&over.entries[k].1);
            let ghost before = self.entries@;
            let ghost key = over.entries@[k as int].0@;
            self.set(&over.entries[k].0, v);
            proof {
                assert(ov[k as int] == (key, value_v(over.entries@[k as int].1)));
                lemma_first_key_deep(before, key, 0);
                let after = self.entries@;
                let target = set_deep(cfg_deep(before), key, value_v(v));
                let cb = cfg_view(before);
                let ca = cfg_view(after);
                assert(ca == spec_set(cb, key, v));
                assert(ca.len() == after.len());
                assert(cb.len() == before.len());
                assert(cfg_deep(before).len() == before.len());
                assert(cfg_deep(after).len() == after.len());
                match first_key(cb, key) {
                    Some(i) => {
                        lemma_first_key_found(cb, key, 0);
                        assert(ca == cb.update(i, (key, v)));
                        assert(target == cfg_deep(before).update(i, (key, value_v(v))));
                        assert forall|q: int| 0 <= q < after.len() implies #[trigger] cfg_deep(after)[q] == target[q] by {
                            assert(ca[q] == (after[q].0@, after[q].1));
                            assert(cfg_deep(after)[q] == (after[q].0@, value_v(after[q].1)));
                            assert(cb[q] == (before[q].0@, before[q].1));
                            assert(cfg_deep(before)[q] == (before[q].0@, value_v(before[q].1)));
                        }
                    },
                    None => {
                        assert(ca == cb.push((key, v)));
                        assert(target == cfg_deep(before).push((key, value_v(v))));
                        assert forall|q: int| 0 <= q < after.len() implies #[trigger] cfg_deep(after)[q] == target[q] by {
                            assert(ca[q] == (after[q].0@, after[q].1));
                            assert(cfg_deep(after)[q] == (after[q].0@, value_v(after[q].1)));
                            if q < before.len() {
                                assert(cb[q] == (before[q].0@, before[q].1));
                                assert(cfg_deep(before)[q] == (before[q].0@, value_v(before[q].1)));
                            }
                        }
                    },
                }
                assert(cfg_deep(after) =~= target);
            }
            k += 1;
        }
    }

    /// The effective per-rule configuration.
    #[verifier::rlimit(30)]
    pub fn resolve(&self) -> (r: ResolvedConfig)
        ensures
            r.rules@.len() == rule_count(),
            forall|k: int|
                0 <= k < rule_count() ==> ((#[trigger] r.rules@[k]).enabled, r.rules@[k].severity)
                    == rule_setting(cfg_view(self.entries@), spec_all_rules()[k], self.entries@.len() as int),
            forall|k: int|
                0 <= k < rule_count() ==> entries_v((#[trigger] r.rules@[k]).options.entries@) == rule_options(
                    cfg_view(self.entries@),
                    spec_all_rules()[k],
                    self.entries@.len() as int,
                ),
    {
        let ghost v = cfg_view(self.entries@);
        let mut default_enable = true;
        let mut default_severity = Severity::Error;
        let mut found = false;
        let mut i: usize = 0;
        while i < self.entries.len() && !found
            invariant
                i <= self.entries@.len(),
                v == cfg_view(self.entries@),
                default_from(v, 0) == default_from(v, i as int),
                !found ==> default_enable == true && default_severity == Severity::Error,
                found ==> (default_enable, default_severity) == default_from(v, 0),
            decreases self.entries@.len() - i + (if found { 0int } else { 1int }),
        {
            let key_upper = uppercase(&self.entries[i].0);
            proof {
                assert(v[i as int].0 == self.entries@[i as int].0@);
                assert(v[i as int].1 == self.entries@[i as int].1);
                reveal_strlit("DEFAULT");
            }
            if crate::rules::md003::is_text(&key_upper, "DEFAULT") {
                match &self.entries[i].1 {
                    ConfigValue::One(s) => {
                        default_enable = !is_falsy(s);
                        if scalar_is_warning(s) {
                            default_severity = Severity::Warning;
                        }
                    },
                    _ => {
                        default_enable = true;
                    },
                }
                found = true;
            } else {
                i += 1;
            }
        }
        let ghost dflt = default_from(v, 0);
        proof {
            assert((default_enable, default_severity) == dflt);
        }
        let ids = all_rules();
        let mut rules: Vec<RuleConfig> = Vec::new();
        let mut r: usize = 0;
        while r < ids.len()
            invariant
                r <= ids@.len(),
                ids@.len() == rule_count(),
                rules@.len() == r,
                (default_enable, default_severity) == dflt,
                forall|k: int| 0 <= k < r ==> ((#[trigger] rules@[k]).enabled, rules@[k].severity) == dflt,
                forall|k: int| 0 <= k < r ==> (#[trigger] rules@[k]).options.entries@.len() == 0,
            decreases ids@.len() - r,
        {
            rules.push(RuleConfig { enabled: default_enable, severity: default_severity, options: Options::empty() });
            r += 1;
        }
        proof {
            assert forall|k: int| 0 <= k < rule_count() implies entries_v((#[trigger] rules@[k]).options.entries@)
                == rule_options(v, ids@[k], 0) by {
                assert(entries_v(rules@[k].options.entries@) =~= Seq::<(Seq<char>, OptV)>::empty());
            }
        }
        let mut i: usize = 0;
        while i < self.entries.len()
            invariant
                i <= self.entries@.len(),
                v == cfg_view(self.entries@),
                ids@ == spec_all_rules(),
                ids@.len() == rule_count(),
                rules@.len() == rule_count(),
                forall|k: int|
                    0 <= k < rule_count() ==> ((#[trigger] rules@[k]).enabled, rules@[k].severity)
                        == rule_setting(v, ids@[k], i as int),
                forall|k: int|
                    0 <= k < rule_count() ==> entries_v((#[trigger] rules@[k]).options.entries@)
                        == rule_options(v, ids@[k], i as int),
            decreases self.entries@.len() - i,
        {
            let key_upper = uppercase(&self.entries[i].0);
            let (enabled, severity, options) = interpret_value(&self.entries[i].1);
            proof {
                assert(v[i as int].0 == self.entries@[i as int].0@);
                assert(v[i as int].1 == self.entries@[i as int].1);
            }
            let ghost before = rules@;
            let mut r: usize = 0;
            while r < ids.len()
                invariant
                    r <= ids@.len(),
                    before.len() == rule_count(),
                    forall|k: int|
                        0 <= k < rule_count() ==> ((#[trigger] before[k]).enabled, before[k].severity)
                            == rule_setting(v, ids@[k], i as int),
                    forall|k: int|
                        0 <= k < rule_count() ==> entries_v((#[trigger] before[k]).options.entries@)
                            == rule_options(v, ids@[k], i as int),
                    entries_v(options.entries@) == spec_value_options(v[i as int].1),
                    i < self.entries@.len(),
                    v == cfg_view(self.entries@),
                    ids@.len() == rule_count(),
                    rules@.len() == rule_count(),
                    key_upper@ == str_to_uppercase(v[i as int].0),
                    (enabled, severity) == spec_interpret(v[i as int].1),
                    forall|k: int|
                        0 <= k < r ==> ((#[trigger] rules@[k]).enabled, rules@[k].severity) == rule_setting(
                            v,
                            ids@[k],
                            i + 1,
                        ),
                    forall|k: int|
                        0 <= k < r ==> entries_v((#[trigger] rules@[k]).options.entries@) == rule_options(
                            v,
                            ids@[k],
                            i + 1,
                        ),
                    forall|k: int|
                        r <= k < rule_count() ==> (#[trigger] rules@[k]) == before[k],
                decreases ids@.len() - r,
            {
                if rule_matches(ids[r], &key_upper) {
                    let o = Options { entries: clone_entries(&options.entries) };
                    rules.set(r, RuleConfig { enabled, severity, options: o });
                }
                r += 1;
            }
            i += 1;
        }
        ResolvedConfig { rules }
    }
}

fn clone_entries(e: &Vec<(Vec<char>, OptValue)>) -> (r: Vec<(Vec<char>, OptValue)>)
    ensures
        entries_v(r@) == entries_v(e@),
{
    let mut out: Vec<(Vec<char>, OptValue)> = Vec::new();
    let mut i: usize = 0;
    while i < e.len()
        invariant
            i <= e@.len(),
            entries_v(out@) == entries_v(e@).take(i as int),
        decreases e@.len() - i,
    {
        let k = crate::text::slice_vec(&e[i].0, 0, e[i].0.len());
        let v = clone_opt(&e[i].1);
        let ghost before = out@;
        proof {
            assert(k@ =~= e@[i as int].0@);
        }
        out.push((k, v));
        proof {
            assert(entries_v(before).len() == before.len());
            assert(before.len() == i);
            assert forall|q: int| 0 <= q < i + 1 implies #[trigger] entries_v(out@)[q] == entries_v(e@).take(i + 1)[q] by {
                if q < i {
                    assert(out@[q] == before[q]);
                    assert(entries_v(before)[q] == entries_v(e@).take(i as int)[q]);
                }
            }
            assert(entries_v(out@) =~= entries_v(e@).take(i + 1));
        }
        i += 1;
    }
    proof {
        assert(entries_v(e@).take(i as int) =~= entries_v(e@));
    }
    out
}

/// A copy of a configuration value.
pub fn clone_config_value(v: &ConfigValue) -> (r: ConfigValue)
    ensures
        value_v(r) == value_v(*v),
{
    match v {
        ConfigValue::One(s) => ConfigValue::One(s.clone_scalar()),
        ConfigValue::List => ConfigValue::List,
        ConfigValue::Object(o) => ConfigValue::Object(Options { entries: clone_entries(&o.entries) }),
    }
}

impl ResolvedConfig {
    /// The setting of the rule at `index` in `all_rules`.
    pub fn get(&self, index: usize) -> (r: Option<&RuleConfig>)
        ensures
            index < self.rules@.len() ==> r == Some(&self.rules@[index as int]),
            index >= self.rules@.len() ==> r is None,
    {
        if index < self.rules.len() {
            Some(&self.rules[index])
        } else {
            None
        }
    }
}

/// Index of the first `\n` at or after `i` (the end when there is none).
pub open spec fn line_end(s: Seq<char>, i: int) -> int
    decreases s.len() - i,
{
    if i < 0 || i >= s.len() || s[i] == '\n' {
        i
    } else {
        line_end(s, i + 1)
    }
}

/// Index of the `*` of the first `*/` at or after `j` (the last index
/// when there is none).
pub open spec fn block_end(s: Seq<char>, j: int) -> int
    decreases s.len() - j,
{
    if j < 0 || j + 1 >= s.len() || (s[j] == '*' && s[j + 1] == '/') {
        j
    } else {
        block_end(s, j + 1)
    }
}

pub proof fn lemma_line_end(s: Seq<char>, i: int)
    requires
        0 <= i <= s.len(),
    ensures
        i <= line_end(s, i) <= s.len(),
    decreases s.len() - i,
{
    if i < s.len() && s[i] != '\n' {
        lemma_line_end(s, i + 1);
    }
}

pub proof fn lemma_block_end(s: Seq<char>, j: int)
    requires
        0 <= j <= s.len(),
    ensures
        j <= block_end(s, j) <= s.len(),
    decreases s.len() - j,
{
    if j + 1 < s.len() && !(s[j] == '*' && s[j + 1] == '/') {
        lemma_block_end(s, j + 1);
    }
}

/// `s[i..]` without its comments: outside strings, `//` up to the end of
/// the line and `/* ... */` are dropped; inside a string (`in_string`,
/// after a backslash when `escape`) everything is kept.
pub open spec fn uncommented(s: Seq<char>, i: int, in_string: bool, escape: bool) -> Seq<char>
    decreases s.len() + 3 - i,
{
    if i < 0 || i >= s.len() {
        Seq::empty()
    } else if in_string {
        let c = s[i];
        if escape {
            seq![c] + uncommented(s, i + 1, true, false)
        } else if c == '\\' {
            seq![c] + uncommented(s, i + 1, true, true)
        } else if c == '"' {
            seq![c] + uncommented(s, i + 1, false, false)
        } else {
            seq![c] + uncommented(s, i + 1, true, false)
        }
    } else if s[i] == '"' {
        seq!['"'] + uncommented(s, i + 1, true, false)
    } else if s[i] == '/' && i + 1 < s.len() && s[i + 1] == '/' {
        proof {
            lemma_line_end(s, i + 2);
        }
        uncommented(s, line_end(s, i + 2), false, false)
    } else if s[i] == '/' && i + 1 < s.len() && s[i + 1] == '*' {
        proof {
            lemma_block_end(s, i + 2);
        }
        uncommented(s, block_end(s, i + 2) + 2, false, false)
    } else {
        seq![s[i]] + uncommented(s, i + 1, false, false)
    }
}

/// JSONC to JSON: `//` and `/* */` comments outside strings removed, then
/// trailing commas.
pub fn strip_jsonc(input: &[char]) -> (r: Vec<char>)
    requires
        input@.len() < usize::MAX / 2,
    ensures
        r@ == kept_chars(uncommented(input@, 0, false, false), uncommented(input@, 0, false, false).len() as int),
{
    let ghost s = input@;
    let ghost whole = uncommented(s, 0, false, false);
    let n = input.len();
    let mut out: Vec<char> = Vec::new();
    let mut i: usize = 0;
    let mut in_string = false;
    let mut escape = false;
    while i < n
        invariant
            n == input@.len(),
            s == input@,
            n < usize::MAX / 2,
            i <= n + 3,
            !in_string ==> !escape,
            out@ + uncommented(s, i as int, in_string, escape) == whole,
        decreases n + 3 - i,
    {
        let ghost i0 = i;
        let ghost before = out@;
        let ghost esc0 = escape;
        let c = input[i];
        if in_string {
            out.push(c);
            if escape {
                escape = false;
            } else if c == '\\' {
                escape = true;
            } else if c == '"' {
                in_string = false;
            }
            i += 1;
            proof {
                assert(uncommented(s, i0 as int, true, esc0) == seq![c] + uncommented(s, i as int, in_string, escape));
                assert(out@ + uncommented(s, i as int, in_string, escape) =~= before + uncommented(s, i0 as int, true, esc0));
            }
            continue;
        }
        if c == '"' {
            in_string = true;
            out.push(c);
            i += 1;
            proof {
                assert(out@ + uncommented(s, i as int, true, false) =~= before + uncommented(s, i0 as int, false, false));
            }
        } else if c == '/' && i + 1 < n && input[i + 1] == '/' {
            i += 2;
            proof {
                lemma_line_end(s, i as int);
            }
            while i < n && input[i] != '\n'
                invariant
                    i0 + 2 <= i <= n,
                    n == input@.len(),
                    s == input@,
                    line_end(s, i as int) == line_end(s, i0 + 2),
                decreases n - i,
            {
                i += 1;
            }
            proof {
                assert(uncommented(s, i0 as int, false, false) == uncommented(s, i as int, false, false));
            }
        } else if c == '/' && i + 1 < n && input[i + 1] == '*' {
            i += 2;
            proof {
                lemma_block_end(s, i as int);
            }
            while i + 1 < n && !(input[i] == '*' && input[i + 1] == '/')
                invariant
                    i0 + 2 <= i <= n,
                    n == input@.len(),
                    s == input@,
                    n < usize::MAX / 2,
                    block_end(s, i as int) == block_end(s, i0 + 2),
                decreases n + 1 - i,
            {
                i += 1;
            }
            i += 2;
            proof {
                assert(uncommented(s, i0 as int, false, false) == uncommented(s, i as int, false, false));
            }
        } else {
            out.push(c);
            i += 1;
            proof {
                assert(out@ + uncommented(s, i as int, false, false) =~= before + uncommented(s, i0 as int, false, false));
            }
        }
    }
    proof {
        assert(out@ =~= whole);
    }
    remove_trailing_commas(&out)
}

/// First index `>= j` that is not whitespace (or the length).
pub open spec fn next_non_ws(s: Seq<char>, j: int) -> int
    decreases s.len() - j,
{
    if 0 <= j < s.len() && crate::text::spec_is_whitespace(s[j]) {
        next_non_ws(s, j + 1)
    } else {
        j
    }
}

/// Position `k` holds a comma followed, after whitespace, by `}` or `]`.
pub open spec fn dangling_comma(s: Seq<char>, k: int) -> bool {
    let j = next_non_ws(s, k + 1);
    !str_state(s, k).0 && s[k] == ',' && 0 <= j < s.len() && (s[j] == '}' || s[j] == ']')
}

/// After `s[..i]`: whether a string literal is open, and whether its last
/// character was an escaping backslash.
pub open spec fn str_state(s: Seq<char>, i: int) -> (bool, bool)
    decreases i,
{
    if i <= 0 {
        (false, false)
    } else {
        let (ins, esc) = str_state(s, i - 1);
        let c = s[i - 1];
        if ins {
            if esc {
                (true, false)
            } else if c == '\\' {
                (true, true)
            } else if c == '"' {
                (false, false)
            } else {
                (true, false)
            }
        } else {
            (c == '"', false)
        }
    }
}

/// The characters of `s[..i]` that are not dangling commas.
pub open spec fn kept_chars(s: Seq<char>, i: int) -> Seq<char>
    decreases i,
{
    if i <= 0 {
        Seq::empty()
    } else if dangling_comma(s, i - 1) {
        kept_chars(s, i - 1)
    } else {
        kept_chars(s, i - 1).push(s[i - 1])
    }
}

/// Remove the trailing commas of JSON arrays and objects.
pub fn remove_trailing_commas(s: &[char]) -> (r: Vec<char>)
    ensures
        r@ == kept_chars(s@, s@.len() as int),
{
    let n = s.len();
    let mut out: Vec<char> = Vec::new();
    let mut i: usize = 0;
    let mut in_str = false;
    let mut esc = false;
    while i < n
        invariant
            i <= n,
            n == s@.len(),
            out@ == kept_chars(s@, i as int),
            (in_str, esc) == str_state(s@, i as int),
        decreases n - i,
    {
        let c = s[i];
        let was_in = in_str;
        if in_str {
            if esc {
                esc = false;
            } else if c == '\\' {
                esc = true;
            } else if c == '"' {
                in_str = false;
            }
        } else {
            in_str = c == '"';
        }
        if !was_in && s[i] == ',' {
            let mut j = i + 1;
            while j < n && is_whitespace(s[j])
                invariant
                    i < j <= n,
                    n == s@.len(),
                    next_non_ws(s@, j as int) == next_non_ws(s@, i + 1),
                decreases n - j,
            {
                j += 1;
            }
            if j < n && (s[j] == '}' || s[j] == ']') {
                i += 1;
                continue;
            }
        }
        out.push(s[i]);
        i += 1;
    }
    out
}

} // verus!
