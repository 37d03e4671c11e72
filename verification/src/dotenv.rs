//! The loaded set of variables and its accessors.

use vstd::prelude::*;
use crate::error::{DotEnvError, ErrorView};
use crate::interp::{interpolate, interpolation};
use crate::parse::{failure_message, parse_content, parse_env_content};
use crate::text::{
    ascii_lower, chars_of, find_in, lemma_find_char, skip_ws_backward, skip_ws_forward,
    split_on, string_of, to_ascii_lower, trim,
};

verus! {

broadcast use vstd::string::group_string_axioms;

/// The map that `pairs` define, a later pair overriding an earlier one with the same key.
pub open spec fn pairs_map(pairs: Seq<(Seq<char>, Seq<char>)>) -> Map<Seq<char>, Seq<char>>
    decreases pairs.len(),
{
    if pairs.len() == 0 {
        Map::empty()
    } else {
        pairs_map(pairs.drop_last()).insert(pairs.last().0, pairs.last().1)
    }
}

/// The pairs of several files, one file after another.
pub open spec fn concat_layers(layers: Seq<Seq<(Seq<char>, Seq<char>)>>) -> Seq<(Seq<char>, Seq<char>)>
    decreases layers.len(),
{
    if layers.len() == 0 {
        seq![]
    } else {
        concat_layers(layers.drop_last()) + layers.last()
    }
}

/// The map `m` gives the key `k` the value `v`.
pub open spec fn has_entry(m: Map<Seq<char>, Seq<char>>, k: Seq<char>, v: Seq<char>) -> bool {
    m.contains_key(k) && m[k] == v
}

/// No two entries share a key.
pub open spec fn keys_distinct(entries: Seq<(Seq<char>, Seq<char>)>) -> bool {
    forall|i: int, j: int|
        0 <= i < j < entries.len() ==> #[trigger] entries[i].0 != #[trigger] entries[j].0
}

/// With distinct keys, the map holds exactly the entries.
pub proof fn lemma_pairs_map_distinct(entries: Seq<(Seq<char>, Seq<char>)>)
    requires
        keys_distinct(entries),
    ensures
        forall|i: int|
            0 <= i < entries.len() ==> pairs_map(entries).contains_key(#[trigger] entries[i].0)
                && pairs_map(entries)[entries[i].0] == entries[i].1,
        forall|k: Seq<char>|
            #[trigger] pairs_map(entries).contains_key(k) ==> exists|i: int|
                0 <= i < entries.len() && #[trigger] entries[i].0 == k,
    decreases entries.len(),
{
    if entries.len() > 0 {
        let init = entries.drop_last();
        assert(keys_distinct(init)) by {
            assert forall|i: int, j: int| 0 <= i < j < init.len() implies #[trigger] init[i].0
                != #[trigger] init[j].0 by {
                assert(init[i] == entries[i] && init[j] == entries[j]);
            }
        }
        lemma_pairs_map_distinct(init);
        assert forall|i: int| 0 <= i < entries.len() implies pairs_map(entries).contains_key(
            #[trigger] entries[i].0,
        ) && pairs_map(entries)[entries[i].0] == entries[i].1 by {
            if i < entries.len() - 1 {
                assert(init[i] == entries[i]);
                assert(entries[i].0 != entries[entries.len() - 1].0);
            }
        }
        assert forall|k: Seq<char>| #[trigger] pairs_map(entries).contains_key(k) implies exists|
            i: int,
        | 0 <= i < entries.len() && #[trigger] entries[i].0 == k by {
            if k != entries.last().0 {
                assert(pairs_map(init).contains_key(k));
                let i = choose|i: int| 0 <= i < init.len() && #[trigger] init[i].0 == k;
                assert(entries[i] == init[i]);
            } else {
                assert(entries[entries.len() - 1].0 == k);
            }
        }
    }
}

/// The index of the entry of `vars` whose key is `key`.
fn index_of(vars: &Vec<(String, String)>, key: &String) -> (res: Option<usize>)
    ensures
        match res {
            Some(i) => i < vars@.len() && vars@[i as int].0@ == key@,
            None => forall|k: int| 0 <= k < vars@.len() ==> vars@[k].0@ != key@,
        },
{
    let mut i: usize = 0;
    while i < vars.len()
        invariant
            i <= vars@.len(),
            forall|k: int| 0 <= k < i ==> vars@[k].0@ != key@,
        decreases vars@.len() - i,
    {
        if vars[i].0 == *key {
            return Some(i);
        }
        i += 1;
    }
    None
}

/// The variables that `pairs` give once their references are resolved against `env`.
pub open spec fn vars_from_pairs(
    pairs: Seq<(Seq<char>, Seq<char>)>,
    env: Seq<(Seq<char>, Seq<char>)>,
) -> Result<Map<Seq<char>, Seq<char>>, ErrorView> {
    match interpolation(pairs, env) {
        Ok(rs) => Ok(pairs_map(rs)),
        Err((k, r)) => Err(ErrorView::InterpolationError { key: k, references: r }),
    }
}

/// The variables that `.env` content gives, references resolved against `env`.
pub open spec fn vars_from_content(
    content: Seq<char>,
    env: Seq<(Seq<char>, Seq<char>)>,
) -> Result<Map<Seq<char>, Seq<char>>, ErrorView> {
    match parse_content(content) {
        Err((line, f)) => Err(ErrorView::Parse { line, message: failure_message(f) }),
        Ok(ps) => vars_from_pairs(ps, env),
    }
}

/// The boolean that a value spells, ignoring ASCII case: `true`, `1`, `yes`, or
/// `false`, `0`, `no`.
pub open spec fn bool_word(s: Seq<char>) -> Option<bool> {
    let l = s.map_values(|c: char| ascii_lower(c));
    if l == seq!['t', 'r', 'u', 'e'] || l == seq!['1'] || l == seq!['y', 'e', 's'] {
        Some(true)
    } else if l == seq!['f', 'a', 'l', 's', 'e'] || l == seq!['0'] || l == seq!['n', 'o'] {
        Some(false)
    } else {
        None
    }
}

/// The keys of `keys` that `m` lacks, in order.
pub open spec fn missing_keys(keys: Seq<Seq<char>>, m: Map<Seq<char>, Seq<char>>) -> Seq<Seq<char>>
    decreases keys.len(),
{
    if keys.len() == 0 {
        seq![]
    } else if m.contains_key(keys.last()) {
        missing_keys(keys.drop_last(), m)
    } else {
        missing_keys(keys.drop_last(), m).push(keys.last())
    }
}

/// What `get_as` gives for `key` in the map `m`: `MissingVars` for an absent
/// key; otherwise what `parse` made of the key's text, or `TypeConversion`
/// when it made nothing.
pub open spec fn typed_outcome<T, F: Fn(&str) -> Option<T>>(
    m: Map<Seq<char>, Seq<char>>,
    key: Seq<char>,
    expected: Seq<char>,
    parse: F,
    res: Result<T, DotEnvError>,
) -> bool {
    if !m.contains_key(key) {
        res matches Err(e) && e@ == ErrorView::MissingVars(seq![key])
    } else {
        exists|s: &str, parsed: Option<T>|
            #![trigger parse.ensures((s,), parsed)]
            s@ == m[key] && parse.ensures((s,), parsed) && match parsed {
                Some(t) => res == Ok::<T, DotEnvError>(t),
                None => res matches Err(e) && e@ == (ErrorView::TypeConversion {
                    key,
                    expected,
                    value: m[key],
                }),
            }
    }
}

/// What `get_or_default` gives for `key` in the map `m`: `default` for an
/// absent key; otherwise what `parse` made of the key's text, or `default`
/// when it made nothing.
pub open spec fn defaulted_outcome<T, F: Fn(&str) -> Option<T>>(
    m: Map<Seq<char>, Seq<char>>,
    key: Seq<char>,
    default: T,
    parse: F,
    res: T,
) -> bool {
    if !m.contains_key(key) {
        res == default
    } else {
        exists|s: &str, parsed: Option<T>|
            #![trigger parse.ensures((s,), parsed)]
            s@ == m[key] && parse.ensures((s,), parsed) && res == match parsed {
                Some(t) => t,
                None => default,
            }
    }
}

/// `parse` gives one outcome for each text.
pub open spec fn parses_deterministically<T, F: Fn(&str) -> Option<T>>(parse: F) -> bool {
    forall|s1: &str, s2: &str, p1: Option<T>, p2: Option<T>|
        #![trigger parse.ensures((s1,), p1), parse.ensures((s2,), p2)]
        s1@ == s2@ && parse.ensures((s1,), p1) && parse.ensures((s2,), p2) ==> p1 == p2
}

/// With a parser that gives one outcome per text, `get_or_default` returns
/// what `get_as` succeeds with, and the default wherever `get_as` fails.
pub proof fn law_default_agrees_with_typed<T, F: Fn(&str) -> Option<T>>(
    m: Map<Seq<char>, Seq<char>>,
    key: Seq<char>,
    expected: Seq<char>,
    default: T,
    parse: F,
    typed: Result<T, DotEnvError>,
    defaulted: T,
)
    requires
        parses_deterministically(parse),
        typed_outcome(m, key, expected, parse, typed),
        defaulted_outcome(m, key, default, parse, defaulted),
    ensures
        defaulted == match typed {
            Ok(t) => t,
            Err(_) => default,
        },
{
    if m.contains_key(key) {
        let (s1, p1) = choose|s: &str, parsed: Option<T>|
            #![trigger parse.ensures((s,), parsed)]
            s@ == m[key] && parse.ensures((s,), parsed) && match parsed {
                Some(t) => typed == Ok::<T, DotEnvError>(t),
                None => typed matches Err(e) && e@ == (ErrorView::TypeConversion {
                    key,
                    expected,
                    value: m[key],
                }),
            };
        let (s2, p2) = choose|s: &str, parsed: Option<T>|
            #![trigger parse.ensures((s,), parsed)]
            s@ == m[key] && parse.ensures((s,), parsed) && defaulted == match parsed {
                Some(t) => t,
                None => default,
            };
        assert(p1 == p2);
    }
}

/// The outcome of converting the value `value` of `key`, `parsed` being what the
/// conversion to a type named `expected` gave.
pub fn conversion_result<T>(key: &str, value: &String, parsed: Option<T>, expected: &'static str) -> (res:
    Result<T, DotEnvError>)
    ensures
        match parsed {
            Some(t) => res == Ok::<T, DotEnvError>(t),
            None => res matches Err(e) && e@ == (ErrorView::TypeConversion {
                key: key@,
                expected: expected@,
                value: value@,
            }),
        },
{
    match parsed {
        Some(t) => Ok(t),
        None => Err(DotEnvError::TypeConversion { key: key.to_owned(), expected, value: value.clone() }),
    }
}

/// `parsed` when it holds a value, `default` otherwise.
pub fn value_or_default<T>(parsed: Option<T>, default: T) -> (res: T)
    ensures
        res == match parsed {
            Some(t) => t,
            None => default,
        },
{
    match parsed {
        Some(t) => t,
        None => default,
    }
}

/// The boolean that `s` spells (see `bool_word`).
pub fn parse_bool_word(s: &str) -> (res: Option<bool>)
    ensures
        res == bool_word(s@),
{
    let v = chars_of(s);
    let mut l: Vec<char> = Vec::new();
    let mut i: usize = 0;
    while i < v.len()
        invariant
            i <= v@.len(),
            v@ == s@,
            l@ == s@.take(i as int).map_values(|c: char| ascii_lower(c)),
        decreases v@.len() - i,
    {
        l.push(to_ascii_lower(v[i]));
        assert(l@ =~= s@.take(i + 1).map_values(|c: char| ascii_lower(c)));
        i += 1;
    }
    assert(s@.take(v@.len() as int) =~= s@);
    let n = l.len();
    let is_true = (n == 4 && l[0] == 't' && l[1] == 'r' && l[2] == 'u' && l[3] == 'e') || (n == 1
        && l[0] == '1') || (n == 3 && l[0] == 'y' && l[1] == 'e' && l[2] == 's');
    let is_false = (n == 5 && l[0] == 'f' && l[1] == 'a' && l[2] == 'l' && l[3] == 's' && l[4]
        == 'e') || (n == 1 && l[0] == '0') || (n == 2 && l[0] == 'n' && l[1] == 'o');
    proof {
        let words = seq![
            seq!['t', 'r', 'u', 'e'],
            seq!['1'],
            seq!['y', 'e', 's'],
            seq!['f', 'a', 'l', 's', 'e'],
            seq!['0'],
            seq!['n', 'o'],
        ];
        assert forall|w: int| 0 <= w < 6 implies (l@ == #[trigger] words[w] <==> (l@.len()
            == words[w].len() && forall|k: int| 0 <= k < l@.len() ==> l@[k] == words[w][k])) by {
            if l@.len() == words[w].len() && forall|k: int| 0 <= k < l@.len() ==> l@[k] == words[w][k] {
                assert(l@ =~= words[w]);
            }
        }
        assert(l@ == seq!['t', 'r', 'u', 'e'] <==> l@ == words[0]);
        assert(l@ == seq!['1'] <==> l@ == words[1]);
        assert(l@ == seq!['y', 'e', 's'] <==> l@ == words[2]);
        assert(l@ == seq!['f', 'a', 'l', 's', 'e'] <==> l@ == words[3]);
        assert(l@ == seq!['0'] <==> l@ == words[4]);
        assert(l@ == seq!['n', 'o'] <==> l@ == words[5]);
    }
    if is_true {
        Some(true)
    } else if is_false {
        Some(false)
    } else {
        None
    }
}

/// A loaded set of environment variables parsed from `.env` files.
pub struct DotEnv {
    vars: Vec<(String, String)>,
}

impl View for DotEnv {
    type V = Map<Seq<char>, Seq<char>>;

    closed spec fn view(&self) -> Map<Seq<char>, Seq<char>> {
        pairs_map(self.vars.deep_view())
    }
}

impl DotEnv {
    /// The entries, one per key, in the order in which their keys first came.
    pub closed spec fn entries(self) -> Seq<(Seq<char>, Seq<char>)> {
        self.vars.deep_view()
    }

    #[verifier::type_invariant]
    closed spec fn well_formed(self) -> bool {
        keys_distinct(self.vars.deep_view())
    }

    /// The index of the entry with key `key`.
    fn position(&self, key: &str) -> (res: Option<usize>)
        ensures
            match res {
                Some(i) => i < self.vars@.len() && self.vars@[i as int].0@ == key@
                    && self@.contains_key(key@) && self@[key@] == self.vars@[i as int].1@,
                None => !self@.contains_key(key@),
            },
    {
        proof {
            use_type_invariant(self);
            lemma_pairs_map_distinct(self.vars.deep_view());
        }
        let wanted = key.to_owned();
        let found = index_of(&self.vars, &wanted);
        proof {
            let dv = self.vars.deep_view();
            match found {
                Some(i) => {
                    assert(dv[i as int].0 == key@);
                },
                None => {
                    if self@.contains_key(key@) {
                        let j = choose|j: int| 0 <= j < dv.len() && #[trigger] dv[j].0 == key@;
                        assert(dv[j].0 == self.vars@[j].0@);
                    }
                },
            }
        }
        found
    }

    /// The set of variables that `pairs` define, a later pair overriding an earlier one.
    pub fn from_resolved(pairs: Vec<(String, String)>) -> (res: DotEnv)
        ensures
            res@ == pairs_map(pairs.deep_view()),
    {
        let mut vars: Vec<(String, String)> = Vec::new();
        let mut i: usize = 0;
        let n = pairs.len();
        assert(pairs.deep_view().take(0) =~= Seq::<(Seq<char>, Seq<char>)>::empty());
        assert(vars.deep_view() =~= Seq::<(Seq<char>, Seq<char>)>::empty());
        while i < n
            invariant
                i <= n == pairs@.len(),
                keys_distinct(vars.deep_view()),
                pairs_map(vars.deep_view()) == pairs_map(pairs.deep_view().take(i as int)),
            decreases n - i,
        {
            let key = pairs[i].0.clone();
            let value = pairs[i].1.clone();
            let ghost old_vars = vars.deep_view();
            let ghost m = pairs_map(old_vars);
            proof {
                lemma_pairs_map_distinct(old_vars);
                assert(pairs.deep_view().take(i + 1).drop_last() =~= pairs.deep_view().take(i as int));
            }
            let found = index_of(&vars, &key);
            if let Some(j) = found {
                vars.set(j, (key, value));
                proof {
                    let nv = vars.deep_view();
                    assert(nv =~= old_vars.update(j as int, (key@, value@)));
                    assert(old_vars[j as int].0 == key@);
                    assert(keys_distinct(nv)) by {
                        assert forall|a: int, b: int| 0 <= a < b < nv.len() implies #[trigger] nv[a].0 != #[trigger] nv[b].0 by {
                            assert(nv[a].0 == old_vars[a].0);
                            assert(nv[b].0 == old_vars[b].0);
                        }
                    }
                    lemma_pairs_map_distinct(nv);
                    assert(pairs_map(nv) =~= m.insert(key@, value@)) by {
                        assert forall|k: Seq<char>| #[trigger] pairs_map(nv).contains_key(k) <==> m.insert(key@, value@).contains_key(k) by {
                            if pairs_map(nv).contains_key(k) {
                                let a = choose|a: int| 0 <= a < nv.len() && #[trigger] nv[a].0 == k;
                                assert(old_vars[a].0 == k);
                            }
                            if m.contains_key(k) {
                                let a = choose|a: int| 0 <= a < old_vars.len() && #[trigger] old_vars[a].0 == k;
                                assert(nv[a].0 == k);
                            }
                            if k == key@ {
                                assert(nv[j as int].0 == k);
                            }
                        }
                        assert forall|k: Seq<char>| #[trigger] pairs_map(nv).contains_key(k) implies pairs_map(nv)[k] == m.insert(key@, value@)[k] by {
                            let a = choose|a: int| 0 <= a < nv.len() && #[trigger] nv[a].0 == k;
                            if a != j {
                                assert(old_vars[a] == nv[a]);
                            }
                        }
                    }
                }
            } else {
                vars.push((key, value));
                proof {
                    let nv = vars.deep_view();
                    assert(nv =~= old_vars.push((key@, value@)));
                    assert(nv.drop_last() =~= old_vars);
                    assert(keys_distinct(nv)) by {
                        assert forall|a: int, b: int| 0 <= a < b < nv.len() implies #[trigger] nv[a].0 != #[trigger] nv[b].0 by {
                            if b < old_vars.len() {
                                assert(nv[a] == old_vars[a] && nv[b] == old_vars[b]);
                            } else {
                                assert(nv[a] == old_vars[a]);
                                assert(old_vars[a].0 == vars@[a].0@);
                            }
                        }
                    }
                }
            }
            i += 1;
        }
        assert(pairs.deep_view().take(n as int) =~= pairs.deep_view());
        DotEnv { vars }
    }

    /// Create a `DotEnv` from a string of `.env`-formatted content; references to
    /// keys that the content does not define are looked up in `env`, the
    /// variables of the process environment.
    pub fn from_str(content: &str, env: &Vec<(String, String)>) -> (res: Result<DotEnv, DotEnvError>)
        ensures
            match vars_from_content(content@, env.deep_view()) {
                Ok(m) => res matches Ok(d) && d@ == m,
                Err(v) => res matches Err(e) && e@ == v,
            },
    {
        let pairs = parse_env_content(content)?;
        DotEnv::from_pairs(pairs, env)
    }

    /// Create a `DotEnv` from parsed pairs, later pairs overriding earlier ones,
    /// references resolved against the pairs and then `env`.
    pub fn from_pairs(pairs: Vec<(String, String)>, env: &Vec<(String, String)>) -> (res: Result<
        DotEnv,
        DotEnvError,
    >)
        ensures
            match vars_from_pairs(pairs.deep_view(), env.deep_view()) {
                Ok(m) => res matches Ok(d) && d@ == m,
                Err(v) => res matches Err(e) && e@ == v,
            },
    {
        let resolved = interpolate(pairs, env)?;
        Ok(DotEnv::from_resolved(resolved))
    }

    /// Create a `DotEnv` from the pairs of several files, in order: later files
    /// override earlier ones, and references resolve across all of them and
    /// then against `env`.
    pub fn from_layers(layers: Vec<Vec<(String, String)>>, env: &Vec<(String, String)>) -> (res: Result<
        DotEnv,
        DotEnvError,
    >)
        ensures
            match vars_from_pairs(concat_layers(layers.deep_view()), env.deep_view()) {
                Ok(m) => res matches Ok(d) && d@ == m,
                Err(v) => res matches Err(e) && e@ == v,
            },
    {
        let ghost lv = layers.deep_view();
        let mut all: Vec<(String, String)> = Vec::new();
        let mut i: usize = 0;
        assert(lv.take(0) =~= Seq::<Seq<(Seq<char>, Seq<char>)>>::empty());
        assert(all.deep_view() =~= Seq::<(Seq<char>, Seq<char>)>::empty());
        while i < layers.len()
            invariant
                i <= layers@.len(),
                lv == layers.deep_view(),
                all.deep_view() == concat_layers(lv.take(i as int)),
            decreases layers@.len() - i,
        {
            let ghost before = all.deep_view();
            let layer = &layers[i];
            let mut j: usize = 0;
            while j < layer.len()
                invariant
                    i < layers@.len(),
                    layer == layers@[i as int],
                    j <= layer@.len(),
                    all.deep_view() == before + layer.deep_view().take(j as int),
                decreases layer@.len() - j,
            {
                let ghost b2 = all.deep_view();
                all.push((layer[j].0.clone(), layer[j].1.clone()));
                assert(all.deep_view() =~= b2.push(layer.deep_view()[j as int]));
                assert(before + layer.deep_view().take(j + 1) =~= (before + layer.deep_view().take(j as int)).push(layer.deep_view()[j as int]));
                j += 1;
            }
            assert(layer.deep_view().take(layer@.len() as int) =~= layer.deep_view());
            assert(lv.take(i + 1).drop_last() =~= lv.take(i as int));
            assert(lv.take(i + 1).last() == lv[i as int]);
            assert(lv[i as int] == layer.deep_view());
            i += 1;
        }
        assert(lv.take(layers@.len() as int) =~= lv);
        DotEnv::from_pairs(all, env)
    }

    /// Get the raw string value for a key.
    pub fn get(&self, key: &str) -> (res: Option<&str>)
        ensures
            match res {
                Some(v) => self@.contains_key(key@) && v@ == self@[key@],
                None => !self@.contains_key(key@),
            },
    {
        match self.position(key) {
            Some(i) => Some(self.vars[i].1.as_str()),
            None => None,
        }
    }

    /// Get the value for a key, or return a default if the key is not present.
    pub fn get_or(&self, key: &str, default: &str) -> (res: String)
        ensures
            res@ == if self@.contains_key(key@) {
                self@[key@]
            } else {
                default@
            },
    {
        match self.position(key) {
            Some(i) => self.vars[i].1.clone(),
            None => default.to_owned(),
        }
    }

    /// Get a value parsed as a specific type. `parse` converts the stored text
    /// (for `T: FromStr`, `|s| s.parse::<T>().ok()`); `expected` names the type
    /// in the error reported when the value does not parse.
    ///
    /// # Errors
    ///
    /// Returns [`DotEnvError::MissingVars`] if the key is not found, or
    /// [`DotEnvError::TypeConversion`] if the value cannot be parsed.
    pub fn get_as<T, F: Fn(&str) -> Option<T>>(
        &self,
        key: &str,
        expected: &'static str,
        parse: F,
    ) -> (res: Result<T, DotEnvError>)
        requires
            forall|s: &str| #[trigger] parse.requires((s,)),
        ensures
            typed_outcome(self@, key@, expected@, parse, res),
    {
        match self.position(key) {
            None => {
                let missing = vec![key.to_owned()];
                assert(missing.deep_view() =~= seq![key@]);
                Err(DotEnvError::MissingVars(missing))
            },
            Some(i) => {
                let value = &self.vars[i].1;
                let text = value.as_str();
                let parsed = parse(text);
                let res = conversion_result(key, value, parsed, expected);
                assert(parse.ensures((text,), parsed));
                res
            },
        }
    }

    /// Parse a boolean value from common representations.
    ///
    /// Accepted values (case-insensitive): `true`, `false`, `1`, `0`, `yes`, `no`.
    ///
    /// # Errors
    ///
    /// Returns [`DotEnvError::MissingVars`] if the key is not found, or
    /// [`DotEnvError::TypeConversion`] if the value is not a recognized boolean.
    pub fn get_bool(&self, key: &str) -> (res: Result<bool, DotEnvError>)
        ensures
            !self@.contains_key(key@) ==> (res matches Err(e) && e@ == ErrorView::MissingVars(
                seq![key@],
            )),
            self@.contains_key(key@) ==> match bool_word(self@[key@]) {
                Some(b) => res == Ok::<bool, DotEnvError>(b),
                None => res matches Err(e) && e@ == (ErrorView::TypeConversion {
                    key: key@,
                    expected: "bool"@,
                    value: self@[key@],
                }),
            },
    {
        match self.position(key) {
            None => {
                let missing = vec![key.to_owned()];
                assert(missing.deep_view() =~= seq![key@]);
                Err(DotEnvError::MissingVars(missing))
            },
            Some(i) => {
                let value = &self.vars[i].1;
                match parse_bool_word(value.as_str()) {
                    Some(b) => Ok(b),
                    None => Err(
                        DotEnvError::TypeConversion {
                            key: key.to_owned(),
                            expected: "bool",
                            value: value.clone(),
                        },
                    ),
                }
            },
        }
    }

    /// Get a value parsed as a specific type, returning a default if the key is missing or
    /// the value cannot be parsed. `parse` converts the stored text (for
    /// `T: FromStr`, `|s| s.parse::<T>().ok()`).
    pub fn get_or_default<T, F: Fn(&str) -> Option<T>>(&self, key: &str, default: T, parse: F) -> (res: T)
        requires
            forall|s: &str| #[trigger] parse.requires((s,)),
        ensures
            defaulted_outcome(self@, key@, default, parse, res),
    {
        match self.position(key) {
            None => default,
            Some(i) => {
                let text = self.vars[i].1.as_str();
                let parsed = parse(text);
                let res = value_or_default(parsed, default);
                assert(parse.ensures((text,), parsed));
                res
            },
        }
    }

    /// Split a value by the given separator into a list of strings.
    ///
    /// Returns an empty vector if the key is not found.
    pub fn get_list(&self, key: &str, separator: char) -> (res: Vec<String>)
        ensures
            res.deep_view() == if self@.contains_key(key@) {
                split_on(self@[key@], separator).map_values(|p: Seq<char>| trim(p))
            } else {
                seq![]
            },
    {
        match self.position(key) {
            None => {
                let res: Vec<String> = Vec::new();
                assert(res.deep_view() =~= Seq::<Seq<char>>::empty());
                res
            },
            Some(i) => {
                let v = chars_of(self.vars[i].1.as_str());
                let n = v.len();
                let mut items: Vec<String> = Vec::new();
                let mut pos: usize = 0;
                let ghost whole = split_on(v@, separator).map_values(|p: Seq<char>| trim(p));
                assert(v@.subrange(0, n as int) =~= v@);
                assert(items.deep_view() + split_on(v@.subrange(0, n as int), separator).map_values(
                    |p: Seq<char>| trim(p),
                ) =~= whole);
                loop
                    invariant
                        pos <= n == v@.len(),
                        self@.contains_key(key@),
                        v@ == self@[key@],
                        whole == split_on(v@, separator).map_values(|p: Seq<char>| trim(p)),
                        items.deep_view() + split_on(
                            v@.subrange(pos as int, n as int),
                            separator,
                        ).map_values(|p: Seq<char>| trim(p)) == whole,
                    decreases n - pos,
                {
                    let ghost rest = v@.subrange(pos as int, n as int);
                    let found = find_in(&v, pos, n, separator);
                    proof {
                        lemma_find_char(rest, separator);
                    }
                    let end = match found {
                        Some(j) => j,
                        None => n,
                    };
                    let a = skip_ws_forward(&v, pos, end);
                    let b = skip_ws_backward(&v, a, end);
                    let ghost before = items.deep_view();
                    items.push(string_of(&v, a, b));
                    proof {
                        assert(items.deep_view() =~= before.push(trim(v@.subrange(pos as int, end as int))));
                    }
                    match found {
                        Some(j) => {
                            proof {
                                assert(rest.take(j - pos) =~= v@.subrange(pos as int, j as int));
                                assert(rest.skip(j - pos + 1) =~= v@.subrange(j + 1, n as int));
                                let tail = split_on(v@.subrange(j + 1, n as int), separator);
                                assert(split_on(rest, separator) == seq![v@.subrange(pos as int, j as int)] + tail);
                                assert((seq![v@.subrange(pos as int, j as int)] + tail).map_values(|p: Seq<char>| trim(p))
                                    =~= seq![trim(v@.subrange(pos as int, j as int))] + tail.map_values(|p: Seq<char>| trim(p)));
                                assert(items.deep_view() + tail.map_values(|p: Seq<char>| trim(p)) =~= before
                                    + (seq![trim(v@.subrange(pos as int, j as int))] + tail.map_values(|p: Seq<char>| trim(p))));
                            }
                            pos = j + 1;
                        },
                        None => {
                            proof {
                                assert(rest =~= v@.subrange(pos as int, end as int));
                                assert(split_on(rest, separator) == seq![rest]);
                                assert(seq![rest].map_values(|p: Seq<char>| trim(p)) =~= seq![trim(rest)]);
                                assert(items.deep_view() =~= before + seq![trim(rest)]);
                            }
                            return items;
                        },
                    }
                }
            },
        }
    }

    /// Validate that all specified keys are present.
    ///
    /// # Errors
    ///
    /// Returns [`DotEnvError::MissingVars`] listing all missing keys.
    pub fn require(&self, keys: &[&str]) -> (res: Result<(), DotEnvError>)
        ensures
            ({
                let missing = missing_keys(keys@.map_values(|k: &str| k@), self@);
                if missing.len() == 0 {
                    res is Ok
                } else {
                    res matches Err(e) && e@ == ErrorView::MissingVars(missing)
                }
            }),
    {
        let ghost kv = keys@.map_values(|k: &str| k@);
        let mut missing: Vec<String> = Vec::new();
        let mut i: usize = 0;
        assert(kv.take(0) =~= Seq::<Seq<char>>::empty());
        assert(missing.deep_view() =~= Seq::<Seq<char>>::empty());
        while i < keys.len()
            invariant
                i <= keys@.len(),
                kv == keys@.map_values(|k: &str| k@),
                missing.deep_view() == missing_keys(kv.take(i as int), self@),
            decreases keys@.len() - i,
        {
            let ghost before = missing.deep_view();
            assert(kv.take(i + 1).drop_last() =~= kv.take(i as int));
            assert(kv.take(i + 1).last() == keys@[i as int]@);
            if self.position(keys[i]).is_none() {
                missing.push(keys[i].to_owned());
                assert(missing.deep_view() =~= before.push(keys@[i as int]@));
            }
            i += 1;
        }
        assert(kv.take(keys@.len() as int) =~= kv);
        if missing.len() == 0 {
            Ok(())
        } else {
            Err(DotEnvError::MissingVars(missing))
        }
    }

    /// All keys, each once.
    pub fn keys(&self) -> (res: Vec<&str>)
        ensures
            res@.len() == self.entries().len(),
            forall|i: int| 0 <= i < res@.len() ==> #[trigger] res@[i]@ == self.entries()[i].0,
            forall|k: Seq<char>| self@.contains_key(k) <==> exists|i: int| 0 <= i < res@.len() && #[trigger] res@[i]@ == k,
            forall|i: int, j: int| 0 <= i < j < res@.len() ==> #[trigger] res@[i]@ != #[trigger] res@[j]@,
    {
        proof {
            use_type_invariant(self);
            lemma_pairs_map_distinct(self.vars.deep_view());
        }
        let mut res: Vec<&str> = Vec::new();
        let mut i: usize = 0;
        while i < self.vars.len()
            invariant
                i <= self.vars@.len(),
                keys_distinct(self.vars.deep_view()),
                res@.len() == i,
                forall|j: int| 0 <= j < i ==> #[trigger] res@[j]@ == self.vars@[j].0@,
            decreases self.vars@.len() - i,
        {
            res.push(self.vars[i].0.as_str());
            i += 1;
        }
        proof {
            let dv = self.vars.deep_view();
            assert forall|k: Seq<char>| self@.contains_key(k) <==> exists|i: int| 0 <= i < res@.len() && #[trigger] res@[i]@ == k by {
                if self@.contains_key(k) {
                    let j = choose|j: int| 0 <= j < dv.len() && #[trigger] dv[j].0 == k;
                    assert(res@[j]@ == k);
                }
                if exists|i: int| 0 <= i < res@.len() && #[trigger] res@[i]@ == k {
                    let j = choose|j: int| 0 <= j < res@.len() && #[trigger] res@[j]@ == k;
                    assert(dv[j].0 == k);
                }
            }
            assert forall|a: int, b: int| 0 <= a < b < res@.len() implies #[trigger] res@[a]@ != #[trigger] res@[b]@ by {
                assert(dv[a].0 != dv[b].0);
            }
        }
        res
    }

    /// All key-value pairs, each key once.
    pub fn iter(&self) -> (res: Vec<(&str, &str)>)
        ensures
            res@.len() == self.entries().len(),
            forall|i: int| 0 <= i < res@.len() ==> (#[trigger] res@[i].0@, res@[i].1@) == self.entries()[i],
            forall|k: Seq<char>, v: Seq<char>|
                #[trigger] has_entry(self@, k, v) <==> exists|i: int|
                    0 <= i < res@.len() && #[trigger] res@[i].0@ == k && res@[i].1@ == v,
            forall|k: Seq<char>| self@.contains_key(k) <==> exists|i: int| 0 <= i < res@.len() && #[trigger] res@[i].0@ == k,
            forall|i: int| 0 <= i < res@.len() ==> #[trigger] self@[res@[i].0@] == res@[i].1@,
            forall|i: int, j: int| 0 <= i < j < res@.len() ==> #[trigger] res@[i].0@ != #[trigger] res@[j].0@,
    {
        proof {
            use_type_invariant(self);
            lemma_pairs_map_distinct(self.vars.deep_view());
        }
        let mut res: Vec<(&str, &str)> = Vec::new();
        let mut i: usize = 0;
        while i < self.vars.len()
            invariant
                i <= self.vars@.len(),
                keys_distinct(self.vars.deep_view()),
                res@.len() == i,
                forall|j: int| 0 <= j < i ==> #[trigger] res@[j].0@ == self.vars@[j].0@ && res@[j].1@ == self.vars@[j].1@,
            decreases self.vars@.len() - i,
        {
            res.push((self.vars[i].0.as_str(), self.vars[i].1.as_str()));
            i += 1;
        }
        proof {
            let dv = self.vars.deep_view();
            assert forall|k: Seq<char>| self@.contains_key(k) <==> exists|i: int| 0 <= i < res@.len() && #[trigger] res@[i].0@ == k by {
                if self@.contains_key(k) {
                    let j = choose|j: int| 0 <= j < dv.len() && #[trigger] dv[j].0 == k;
                    assert(res@[j].0@ == k);
                }
                if exists|i: int| 0 <= i < res@.len() && #[trigger] res@[i].0@ == k {
                    let j = choose|j: int| 0 <= j < res@.len() && #[trigger] res@[j].0@ == k;
                    assert(dv[j].0 == k);
                }
            }
            assert forall|i: int| 0 <= i < res@.len() implies #[trigger] self@[res@[i].0@] == res@[i].1@ by {
                assert(dv[i].0 == res@[i].0@);
            }
            assert forall|a: int, b: int| 0 <= a < b < res@.len() implies #[trigger] res@[a].0@ != #[trigger] res@[b].0@ by {
                assert(dv[a].0 != dv[b].0);
            }
        }
        res
    }
}

}
