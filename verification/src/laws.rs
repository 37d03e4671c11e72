//! Properties of the library as a whole, stated over the specifications that
//! the functions' contracts use, and proved.

use vstd::prelude::*;
use crate::dotenv::{bool_word, concat_layers, keys_distinct, missing_keys, pairs_map, vars_from_pairs};
use crate::interp::{
    count_outside, env_value, expand, interpolate_prefix, interpolation, lemma_count_outside_push,
    lemma_lookup_defined, lookup, memo_after_expand, resolve,
};
use crate::parse::prepend;
use crate::text::{ascii_lower, find_char, lemma_find_char, split_on};

verus! {

broadcast use vstd::seq_lib::lemma_seq_contains_after_push;

/// `s` holds no `${`: nothing in it is a reference.
pub open spec fn no_refs(s: Seq<char>) -> bool {
    forall|i: int| 0 <= i < s.len() - 1 ==> !(#[trigger] s[i] == '$' && s[i + 1] == '{')
}

/// A later definition of a key overrides an earlier one: looking a key up in
/// `first + second` finds its value in `second` when `second` defines it, and
/// in `first` otherwise.
pub proof fn law_later_definition_wins(
    first: Seq<(Seq<char>, Seq<char>)>,
    second: Seq<(Seq<char>, Seq<char>)>,
    k: Seq<char>,
)
    ensures
        lookup(first + second, k) == if lookup(second, k) is Some {
            lookup(second, k)
        } else {
            lookup(first, k)
        },
    decreases second.len(),
{
    if second.len() == 0 {
        assert(first + second =~= first);
    } else {
        assert((first + second).drop_last() =~= first + second.drop_last());
        assert((first + second).last() == second.last());
        law_later_definition_wins(first, second.drop_last(), k);
    }
}

/// Text with no reference in it, followed by more text, expands to itself
/// followed by the expansion of the rest (unless a `$` ending it meets a `{`).
pub proof fn lemma_expand_plain_prefix(
    pairs: Seq<(Seq<char>, Seq<char>)>,
    env: Seq<(Seq<char>, Seq<char>)>,
    x: Seq<char>,
    y: Seq<char>,
    parent: Seq<char>,
    vis: Seq<Seq<char>>,
)
    requires
        no_refs(x),
        !(x.len() > 0 && y.len() > 0 && x.last() == '$' && y[0] == '{'),
    ensures
        expand(pairs, env, x + y, parent, vis) == prepend(x, expand(pairs, env, y, parent, vis)),
    decreases x.len(),
{
    if x.len() == 0 {
        assert(x + y =~= y);
        match expand(pairs, env, y, parent, vis) {
            Ok(t) => {
                assert(x + t =~= t);
            },
            Err(_) => {},
        }
    } else {
        let s = x + y;
        assert(s[0] == x[0]);
        if x.len() >= 2 {
            assert(s[1] == x[1]);
            assert(!(x[0] == '$' && x[1] == '{'));
        } else if y.len() > 0 {
            assert(s[1] == y[0]);
        }
        assert(s.drop_first() =~= x.drop_first() + y);
        assert(no_refs(x.drop_first())) by {
            assert forall|i: int| 0 <= i < x.drop_first().len() - 1 implies !(#[trigger] x.drop_first()[i] == '$' && x.drop_first()[i + 1] == '{') by {
                assert(x.drop_first()[i] == x[i + 1] && x.drop_first()[i + 1] == x[i + 2]);
            }
        }
        if x.drop_first().len() > 0 {
            assert(x.drop_first().last() == x.last());
        }
        lemma_expand_plain_prefix(pairs, env, x.drop_first(), y, parent, vis);
        match expand(pairs, env, y, parent, vis) {
            Ok(t) => {
                assert(seq![x[0]] + (x.drop_first() + t) =~= x + t);
            },
            Err(_) => {},
        }
    }
}

/// Text with no reference in it expands to itself.
pub proof fn law_plain_text_unchanged(
    pairs: Seq<(Seq<char>, Seq<char>)>,
    env: Seq<(Seq<char>, Seq<char>)>,
    s: Seq<char>,
    parent: Seq<char>,
    vis: Seq<Seq<char>>,
)
    requires
        no_refs(s),
    ensures
        expand(pairs, env, s, parent, vis) == Ok::<Seq<char>, (Seq<char>, Seq<char>)>(s),
{
    lemma_expand_plain_prefix(pairs, env, s, seq![], parent, vis);
    assert(s + seq![] =~= s);
}

/// A key whose value holds no reference keeps that value.
pub proof fn law_plain_value_kept(
    pairs: Seq<(Seq<char>, Seq<char>)>,
    env: Seq<(Seq<char>, Seq<char>)>,
    k: Seq<char>,
    v: Seq<char>,
)
    requires
        lookup(pairs, k) == Some(v),
        no_refs(v),
    ensures
        resolve(pairs, env, k, seq![]) == Ok::<Seq<char>, (Seq<char>, Seq<char>)>(v),
{
    law_plain_text_unchanged(pairs, env, v, k, seq![k]);
    assert(seq![].push(k) =~= seq![k]);
}

/// `${NAME}` in a value is replaced by the value of `NAME` (its written value,
/// when that holds no reference, or the environment's when no pair defines it).
pub proof fn law_reference_replaced(
    pairs: Seq<(Seq<char>, Seq<char>)>,
    env: Seq<(Seq<char>, Seq<char>)>,
    k: Seq<char>,
    before: Seq<char>,
    name: Seq<char>,
    after: Seq<char>,
)
    requires
        lookup(pairs, k) == Some(before + seq!['$', '{'] + name + seq!['}'] + after),
        no_refs(before),
        no_refs(after),
        forall|i: int| 0 <= i < name.len() ==> name[i] != '}',
        name != k,
        match lookup(pairs, name) {
            Some(w) => no_refs(w),
            None => true,
        },
    ensures
        resolve(pairs, env, k, seq![]) == Ok::<Seq<char>, (Seq<char>, Seq<char>)>(
            before + match lookup(pairs, name) {
                Some(w) => w,
                None => env_value(env, name),
            } + after,
        ),
{
    let vis = seq![k];
    assert(seq![].push(k) =~= vis);
    let tail = seq!['$', '{'] + name + seq!['}'] + after;
    let raw = before + seq!['$', '{'] + name + seq!['}'] + after;
    assert(raw =~= before + tail);
    lemma_expand_plain_prefix(pairs, env, before, tail, k, vis);
    // The reference itself.
    let rest = tail.skip(2);
    assert(rest =~= name + (seq!['}'] + after));
    crate::text::lemma_find_char(rest, '}');
    assert(rest[name.len() as int] == '}');
    assert(crate::text::find_char(rest, '}') == Some(name.len() as int)) by {
        match crate::text::find_char(rest, '}') {
            Some(j) => {
                if j < name.len() {
                    assert(rest[j] == name[j]);
                }
            },
            None => {},
        }
    }
    assert(rest.take(name.len() as int) =~= name);
    assert(rest.skip(name.len() as int + 1) =~= after);
    assert(!vis.contains(name)) by {
        if vis.contains(name) {
            assert(vis[0] == name);
        }
    }
    match lookup(pairs, name) {
        Some(w) => {
            law_plain_text_unchanged(pairs, env, w, name, vis.push(name));
        },
        None => {},
    }
    law_plain_text_unchanged(pairs, env, after, k, vis);
    let w = match lookup(pairs, name) {
        Some(w) => w,
        None => env_value(env, name),
    };
    assert(resolve(pairs, env, name, vis) == Ok::<Seq<char>, (Seq<char>, Seq<char>)>(w));
    assert(expand(pairs, env, tail, k, vis) == Ok::<Seq<char>, (Seq<char>, Seq<char>)>(w + after));
    assert(before + (w + after) =~= before + w + after);
}


/// A key whose value is a reference to itself cannot be resolved: the error
/// names the key and the reference.
pub proof fn law_self_reference_fails(
    pairs: Seq<(Seq<char>, Seq<char>)>,
    env: Seq<(Seq<char>, Seq<char>)>,
    k: Seq<char>,
)
    requires
        lookup(pairs, k) == Some(seq!['$', '{'] + k + seq!['}']),
        forall|i: int| 0 <= i < k.len() ==> k[i] != '}',
    ensures
        resolve(pairs, env, k, seq![]) == Err::<Seq<char>, (Seq<char>, Seq<char>)>((k, k)),
{
    let vis = seq![k];
    assert(seq![].push(k) =~= vis);
    lemma_lone_reference(pairs, env, k, k, vis);
    assert(vis.contains(k)) by {
        assert(vis[0] == k);
    }
}

/// The text `${name}` alone expands to the value of `name`, or fails naming
/// the parent and the reference.
proof fn lemma_lone_reference(
    pairs: Seq<(Seq<char>, Seq<char>)>,
    env: Seq<(Seq<char>, Seq<char>)>,
    parent: Seq<char>,
    name: Seq<char>,
    vis: Seq<Seq<char>>,
)
    requires
        forall|i: int| 0 <= i < name.len() ==> name[i] != '}',
    ensures
        expand(pairs, env, seq!['$', '{'] + name + seq!['}'], parent, vis) == match resolve(
            pairs,
            env,
            name,
            vis,
        ) {
            Ok(w) => Ok(w),
            Err(_) => Err((parent, name)),
        },
{
    let s = seq!['$', '{'] + name + seq!['}'];
    let rest = s.skip(2);
    assert(rest =~= name + seq!['}']);
    crate::text::lemma_find_char(rest, '}');
    assert(rest[name.len() as int] == '}');
    assert(crate::text::find_char(rest, '}') == Some(name.len() as int)) by {
        match crate::text::find_char(rest, '}') {
            Some(j) => {
                if j < name.len() {
                    assert(rest[j] == name[j]);
                }
            },
            None => {},
        }
    }
    assert(rest.take(name.len() as int) =~= name);
    assert(rest.skip(name.len() as int + 1) =~= Seq::<char>::empty());
    assert(s[0] == '$' && s[1] == '{' && s.len() >= 2);
    assert(expand(pairs, env, Seq::<char>::empty(), parent, vis) == Ok::<Seq<char>, (Seq<char>, Seq<char>)>(seq![]));
    match resolve(pairs, env, name, vis) {
        Ok(w) => {
            assert(w + seq![] =~= w);
        },
        Err(_) => {},
    }
}

/// Two keys whose values refer to each other cannot be resolved: resolving the
/// first fails, naming it and the reference to the second.
pub proof fn law_two_key_cycle_fails(
    pairs: Seq<(Seq<char>, Seq<char>)>,
    env: Seq<(Seq<char>, Seq<char>)>,
    a: Seq<char>,
    b: Seq<char>,
)
    requires
        a != b,
        lookup(pairs, a) == Some(seq!['$', '{'] + b + seq!['}']),
        lookup(pairs, b) == Some(seq!['$', '{'] + a + seq!['}']),
        forall|i: int| 0 <= i < a.len() ==> a[i] != '}',
        forall|i: int| 0 <= i < b.len() ==> b[i] != '}',
    ensures
        resolve(pairs, env, a, seq![]) == Err::<Seq<char>, (Seq<char>, Seq<char>)>((a, b)),
{
    let v1 = seq![a];
    let v2 = seq![a, b];
    assert(seq![].push(a) =~= v1);
    assert(v1.push(b) =~= v2);
    assert(!v1.contains(b)) by {
        if v1.contains(b) {
            assert(v1[0] == b);
        }
    }
    assert(v2.contains(a)) by {
        assert(v2[0] == a);
    }
    lemma_lone_reference(pairs, env, b, a, v2);
    lemma_lone_reference(pairs, env, a, b, v1);
}

/// The pairs that a successful interpolation yields are the given pairs, in
/// order, each key with its resolved value.
pub proof fn lemma_interpolated_pairs(
    pairs: Seq<(Seq<char>, Seq<char>)>,
    env: Seq<(Seq<char>, Seq<char>)>,
    n: nat,
)
    requires
        n <= pairs.len(),
        interpolate_prefix(pairs, env, n) is Ok,
    ensures
        interpolate_prefix(pairs, env, n)->Ok_0.len() == n,
        forall|i: int|
            0 <= i < n ==> (#[trigger] interpolate_prefix(pairs, env, n)->Ok_0[i]).0 == pairs[i].0
                && resolve(pairs, env, pairs[i].0, seq![]) == Ok::<Seq<char>, (Seq<char>, Seq<char>)>(
                interpolate_prefix(pairs, env, n)->Ok_0[i].1,
            ),
    decreases n,
{
    if n > 0 {
        lemma_interpolated_pairs(pairs, env, (n - 1) as nat);
    }
}

/// The map of pairs in which each value is a function of its key.
proof fn lemma_pairs_map_of_function(rs: Seq<(Seq<char>, Seq<char>)>, f: spec_fn(Seq<char>) -> Seq<char>)
    requires
        forall|i: int| 0 <= i < rs.len() ==> #[trigger] rs[i].1 == f(rs[i].0),
    ensures
        forall|k: Seq<char>| #[trigger] pairs_map(rs).contains_key(k) <==> exists|i: int|
            0 <= i < rs.len() && #[trigger] rs[i].0 == k,
        forall|k: Seq<char>| #[trigger] pairs_map(rs).contains_key(k) ==> pairs_map(rs)[k] == f(k),
    decreases rs.len(),
{
    if rs.len() > 0 {
        let init = rs.drop_last();
        assert forall|i: int| 0 <= i < init.len() implies #[trigger] init[i].1 == f(init[i].0) by {
            assert(init[i] == rs[i]);
        }
        lemma_pairs_map_of_function(init, f);
        assert(rs.last().1 == f(rs.last().0)) by {
            assert(rs[rs.len() - 1] == rs.last());
        }
        assert forall|k: Seq<char>| #[trigger] pairs_map(rs).contains_key(k) <==> exists|i: int|
            0 <= i < rs.len() && #[trigger] rs[i].0 == k by {
            if k == rs.last().0 {
                assert(rs[rs.len() - 1].0 == k);
            } else {
                if pairs_map(rs).contains_key(k) {
                    assert(pairs_map(init).contains_key(k));
                    let i = choose|i: int| 0 <= i < init.len() && #[trigger] init[i].0 == k;
                    assert(rs[i] == init[i]);
                }
                if exists|i: int| 0 <= i < rs.len() && #[trigger] rs[i].0 == k {
                    let i = choose|i: int| 0 <= i < rs.len() && #[trigger] rs[i].0 == k;
                    assert(i < rs.len() - 1);
                    assert(init[i] == rs[i]);
                    assert(pairs_map(init).contains_key(k));
                }
            }
        }
        assert forall|k: Seq<char>| #[trigger] pairs_map(rs).contains_key(k) implies pairs_map(rs)[k] == f(k) by {
            if k != rs.last().0 {
                assert(pairs_map(init).contains_key(k));
            }
        }
    }
}

/// Loading pairs gives exactly their keys, each with the value that resolving
/// it gives (its last definition, references replaced).
pub proof fn law_loaded_values_are_resolved(
    pairs: Seq<(Seq<char>, Seq<char>)>,
    env: Seq<(Seq<char>, Seq<char>)>,
)
    requires
        vars_from_pairs(pairs, env) is Ok,
    ensures
        forall|k: Seq<char>|
            #[trigger] vars_from_pairs(pairs, env)->Ok_0.contains_key(k) <==> lookup(pairs, k) is Some,
        forall|k: Seq<char>|
            #[trigger] vars_from_pairs(pairs, env)->Ok_0.contains_key(k) ==> resolve(pairs, env, k, seq![])
                == Ok::<Seq<char>, (Seq<char>, Seq<char>)>(vars_from_pairs(pairs, env)->Ok_0[k]),
{
    lemma_interpolated_pairs(pairs, env, pairs.len());
    let rs = interpolation(pairs, env)->Ok_0;
    let f = |k: Seq<char>| resolve(pairs, env, k, seq![])->Ok_0;
    assert forall|i: int| 0 <= i < rs.len() implies #[trigger] rs[i].1 == f(rs[i].0) by {
        assert(resolve(pairs, env, pairs[i].0, seq![]) == Ok::<Seq<char>, (Seq<char>, Seq<char>)>(rs[i].1));
    }
    lemma_pairs_map_of_function(rs, f);
    let m = pairs_map(rs);
    assert forall|k: Seq<char>| #[trigger] m.contains_key(k) <==> lookup(pairs, k) is Some by {
        if m.contains_key(k) {
            let i = choose|i: int| 0 <= i < rs.len() && #[trigger] rs[i].0 == k;
            crate::interp::lemma_lookup_defined(pairs, i);
        }
        if lookup(pairs, k) is Some {
            let i = lemma_lookup_index(pairs, k);
            assert(rs[i].0 == k);
        }
    }
    assert forall|k: Seq<char>| #[trigger] m.contains_key(k) implies resolve(pairs, env, k, seq![])
        == Ok::<Seq<char>, (Seq<char>, Seq<char>)>(m[k]) by {
        let i = choose|i: int| 0 <= i < rs.len() && #[trigger] rs[i].0 == k;
        assert(resolve(pairs, env, pairs[i].0, seq![]) == Ok::<Seq<char>, (Seq<char>, Seq<char>)>(rs[i].1));
    }
}

/// A key that `lookup` finds is the key of some pair.
proof fn lemma_lookup_index(pairs: Seq<(Seq<char>, Seq<char>)>, k: Seq<char>) -> (i: int)
    requires
        lookup(pairs, k) is Some,
    ensures
        0 <= i < pairs.len(),
        pairs[i].0 == k,
    decreases pairs.len(),
{
    if pairs.last().0 == k {
        pairs.len() - 1
    } else {
        lemma_lookup_index(pairs.drop_last(), k)
    }
}


/// Layered loading: when pairs from a later file follow those of an earlier
/// one, a key that the later file defines gets the expansion of the later
/// file's value (references resolved against all files), and exactly that
/// value when it holds no reference.
pub proof fn law_later_file_overrides(
    first: Seq<(Seq<char>, Seq<char>)>,
    second: Seq<(Seq<char>, Seq<char>)>,
    env: Seq<(Seq<char>, Seq<char>)>,
    k: Seq<char>,
    v: Seq<char>,
)
    requires
        vars_from_pairs(first + second, env) is Ok,
        lookup(second, k) == Some(v),
    ensures
        vars_from_pairs(first + second, env)->Ok_0.contains_key(k),
        expand(first + second, env, v, k, seq![k]) == Ok::<Seq<char>, (Seq<char>, Seq<char>)>(
            vars_from_pairs(first + second, env)->Ok_0[k],
        ),
        no_refs(v) ==> vars_from_pairs(first + second, env)->Ok_0[k] == v,
{
    law_later_definition_wins(first, second, k);
    law_loaded_values_are_resolved(first + second, env);
    let m = vars_from_pairs(first + second, env)->Ok_0;
    assert(lookup(first + second, k) == Some(v));
    assert(m.contains_key(k));
    assert(resolve(first + second, env, k, seq![]) == Ok::<Seq<char>, (Seq<char>, Seq<char>)>(m[k]));
    assert(seq![].push(k) =~= seq![k]);
    if no_refs(v) {
        law_plain_value_kept(first + second, env, k, v);
    }
}

/// Loading layers is loading their pairs one file after another: the layers
/// of `a` followed by those of `b` give the pairs of `a` followed by the
/// pairs of `b`, and a single file gives its own pairs.
pub proof fn law_layers_concatenate(
    a: Seq<Seq<(Seq<char>, Seq<char>)>>,
    b: Seq<Seq<(Seq<char>, Seq<char>)>>,
)
    ensures
        concat_layers(a + b) == concat_layers(a) + concat_layers(b),
        b.len() == 1 ==> concat_layers(b) == b[0],
    decreases b.len(),
{
    if b.len() == 0 {
        assert(a + b =~= a);
        assert(concat_layers(a) + Seq::<(Seq<char>, Seq<char>)>::empty() =~= concat_layers(a));
    } else {
        assert((a + b).drop_last() =~= a + b.drop_last());
        assert((a + b).last() == b.last());
        law_layers_concatenate(a, b.drop_last());
        assert(concat_layers(a) + concat_layers(b.drop_last()) + b.last() =~= concat_layers(a) + (
        concat_layers(b.drop_last()) + b.last()));
        if b.len() == 1 {
            assert(b.drop_last() =~= Seq::<Seq<(Seq<char>, Seq<char>)>>::empty());
            assert(Seq::<(Seq<char>, Seq<char>)>::empty() + b[0] =~= b[0]);
        }
    }
}

/// Later files override earlier ones: a key takes its value from the last
/// layer that defines it (that layer's own last definition of it), whatever
/// the layers before it say.
pub proof fn law_last_defining_layer_wins(
    layers: Seq<Seq<(Seq<char>, Seq<char>)>>,
    k: Seq<char>,
    j: int,
)
    requires
        0 <= j < layers.len(),
        lookup(layers[j], k) is Some,
        forall|l: int| j < l < layers.len() ==> lookup(#[trigger] layers[l], k) is None,
    ensures
        lookup(concat_layers(layers), k) == lookup(layers[j], k),
    decreases layers.len(),
{
    let init = layers.drop_last();
    law_later_definition_wins(concat_layers(init), layers.last(), k);
    if j < layers.len() - 1 {
        assert(lookup(layers[layers.len() - 1], k) is None);
        assert forall|l: int| j < l < init.len() implies lookup(#[trigger] init[l], k) is None by {
            assert(init[l] == layers[l]);
        }
        assert(init[j] == layers[j]);
        law_last_defining_layer_wins(init, k, j);
    }
}

/// A key that no layer defines is not loaded from the layers.
pub proof fn law_undefined_in_every_layer(layers: Seq<Seq<(Seq<char>, Seq<char>)>>, k: Seq<char>)
    requires
        forall|l: int| 0 <= l < layers.len() ==> lookup(#[trigger] layers[l], k) is None,
    ensures
        lookup(concat_layers(layers), k) is None,
    decreases layers.len(),
{
    if layers.len() > 0 {
        let init = layers.drop_last();
        law_later_definition_wins(concat_layers(init), layers.last(), k);
        assert(lookup(layers[layers.len() - 1], k) is None);
        assert forall|l: int| 0 <= l < init.len() implies lookup(#[trigger] init[l], k) is None by {
            assert(init[l] == layers[l]);
        }
        law_undefined_in_every_layer(init, k);
    }
}

/// The keys that `require` reports missing are exactly the requested keys
/// that are absent, in the order requested; so it succeeds exactly when every
/// requested key is present.
pub proof fn law_require_reports_absent_keys(keys: Seq<Seq<char>>, m: Map<Seq<char>, Seq<char>>)
    ensures
        forall|k: Seq<char>| #[trigger] missing_keys(keys, m).contains(k) <==> (keys.contains(k)
            && !m.contains_key(k)),
        missing_keys(keys, m).len() == 0 <==> forall|i: int| 0 <= i < keys.len() ==> m.contains_key(#[trigger] keys[i]),
    decreases keys.len(),
{
    if keys.len() > 0 {
        let init = keys.drop_last();
        law_require_reports_absent_keys(init, m);
        assert forall|k: Seq<char>| #[trigger] missing_keys(keys, m).contains(k) <==> (keys.contains(k)
            && !m.contains_key(k)) by {
            if keys.contains(k) && k != keys.last() {
                let i = choose|i: int| 0 <= i < keys.len() && keys[i] == k;
                assert(init[i] == k);
            }
            if init.contains(k) {
                let i = choose|i: int| 0 <= i < init.len() && init[i] == k;
                assert(keys[i] == k);
            }
            if k == keys.last() {
                assert(keys[keys.len() - 1] == k);
            }
        }
        if missing_keys(keys, m).len() == 0 {
            assert forall|i: int| 0 <= i < keys.len() implies m.contains_key(#[trigger] keys[i]) by {
                if !m.contains_key(keys[i]) {
                    assert(keys.contains(keys[i]));
                    assert(missing_keys(keys, m).contains(keys[i]));
                }
            }
        } else {
            let k = missing_keys(keys, m)[0];
            assert(missing_keys(keys, m).contains(k));
            let i = choose|i: int| 0 <= i < keys.len() && keys[i] == k;
            assert(!m.contains_key(keys[i]));
        }
    }
}

/// The pieces joined back with the separator between them.
pub open spec fn join_with(pieces: Seq<Seq<char>>, sep: char) -> Seq<char>
    decreases pieces.len(),
{
    if pieces.len() == 0 {
        seq![]
    } else if pieces.len() == 1 {
        pieces[0]
    } else {
        pieces[0] + seq![sep] + join_with(pieces.drop_first(), sep)
    }
}

/// Splitting a value on a separator loses nothing: the pieces hold no
/// separator, there is at least one, and joining them with the separator gives
/// the value back.
pub proof fn law_split_pieces_rejoin(s: Seq<char>, sep: char)
    ensures
        split_on(s, sep).len() >= 1,
        join_with(split_on(s, sep), sep) == s,
        forall|i: int, j: int|
            0 <= i < split_on(s, sep).len() && 0 <= j < split_on(s, sep)[i].len() ==> #[trigger] split_on(
                s,
                sep,
            )[i][j] != sep,
    decreases s.len(),
{
    lemma_find_char(s, sep);
    match find_char(s, sep) {
        None => {},
        Some(i) => {
            let rest = s.skip(i + 1);
            law_split_pieces_rejoin(rest, sep);
            let ps = split_on(s, sep);
            let tail = split_on(rest, sep);
            assert(ps == seq![s.take(i)] + tail);
            assert(ps.drop_first() =~= tail);
            assert(ps[0] == s.take(i));
            assert(s.take(i) + seq![sep] + rest =~= s);
            assert forall|a: int, b: int| 0 <= a < ps.len() && 0 <= b < ps[a].len() implies #[trigger] ps[a][b] != sep by {
                if a > 0 {
                    assert(ps[a] == tail[a - 1]);
                    assert(tail[a - 1][b] != sep);
                }
            }
        },
    }
}

/// Whether a value is a boolean does not depend on ASCII case.
pub proof fn law_bool_ignores_case(s: Seq<char>, t: Seq<char>)
    requires
        s.map_values(|c: char| ascii_lower(c)) == t.map_values(|c: char| ascii_lower(c)),
    ensures
        bool_word(s) == bool_word(t),
{
}

/// `a` and `b` are the same character up to ASCII case: equal, or one the
/// lowercase letter whose uppercase form is the other.
pub open spec fn case_variant(a: char, b: char) -> bool {
    ||| a == b
    ||| ('a' <= a && a <= 'z' && b as u32 + 32 == a as u32)
    ||| ('a' <= b && b <= 'z' && a as u32 + 32 == b as u32)
}

/// `s` and `t` spell the same text up to ASCII case.
pub open spec fn same_ignoring_ascii_case(s: Seq<char>, t: Seq<char>) -> bool {
    s.len() == t.len() && forall|i: int| 0 <= i < s.len() ==> case_variant(#[trigger] s[i], t[i])
}

/// Lowercasing turns each ASCII uppercase letter into its lowercase letter, 32
/// code points on, and leaves every other character as it is.
pub proof fn law_ascii_lower_letters(c: char)
    ensures
        'A' <= c && c <= 'Z' ==> ascii_lower(c) as u32 == c as u32 + 32 && 'a' <= ascii_lower(c)
            && ascii_lower(c) <= 'z',
        !('A' <= c && c <= 'Z') ==> ascii_lower(c) == c,
{
}

/// Lowercasing `s` gives the lowercase word `w` exactly when `s` spells `w`
/// in any mix of ASCII case.
proof fn lemma_lowercases_to(s: Seq<char>, w: Seq<char>)
    requires
        forall|i: int| 0 <= i < w.len() ==> ('a' <= #[trigger] w[i] && w[i] <= 'z') || ('0' <= w[i]
            && w[i] <= '9'),
    ensures
        s.map_values(|c: char| ascii_lower(c)) == w <==> same_ignoring_ascii_case(s, w),
{
    let l = s.map_values(|c: char| ascii_lower(c));
    if l == w {
        assert forall|i: int| 0 <= i < s.len() implies case_variant(#[trigger] s[i], w[i]) by {
            assert(l[i] == ascii_lower(s[i]));
            law_ascii_lower_letters(s[i]);
        }
    }
    if same_ignoring_ascii_case(s, w) {
        assert forall|i: int| 0 <= i < s.len() implies #[trigger] l[i] == w[i] by {
            assert(l[i] == ascii_lower(s[i]));
            assert(case_variant(s[i], w[i]));
            law_ascii_lower_letters(s[i]);
            if 'A' <= s[i] && s[i] <= 'Z' {
                assert(s[i] != w[i]);
                assert(ascii_lower(s[i]) as u32 == w[i] as u32);
            }
        }
        assert(l =~= w);
    }
}

/// A value reads as a boolean exactly when it spells `true`, `1` or `yes`
/// (giving `true`), or `false`, `0` or `no` (giving `false`), in any mix of
/// ASCII case: `FALSE`, `False` and `fAlSe` all read as `false`.
pub proof fn law_bool_word_spellings(s: Seq<char>)
    ensures
        bool_word(s) == if same_ignoring_ascii_case(s, seq!['t', 'r', 'u', 'e'])
            || same_ignoring_ascii_case(s, seq!['1']) || same_ignoring_ascii_case(
            s,
            seq!['y', 'e', 's'],
        ) {
            Some(true)
        } else if same_ignoring_ascii_case(s, seq!['f', 'a', 'l', 's', 'e'])
            || same_ignoring_ascii_case(s, seq!['0']) || same_ignoring_ascii_case(
            s,
            seq!['n', 'o'],
        ) {
            Some(false)
        } else {
            None
        },
{
    lemma_lowercases_to(s, seq!['t', 'r', 'u', 'e']);
    lemma_lowercases_to(s, seq!['1']);
    lemma_lowercases_to(s, seq!['y', 'e', 's']);
    lemma_lowercases_to(s, seq!['f', 'a', 'l', 's', 'e']);
    lemma_lowercases_to(s, seq!['0']);
    lemma_lowercases_to(s, seq!['n', 'o']);
}


/// Expanding text with no reference in it resolves nothing, so it leaves the
/// memo of resolved keys as it was.
pub proof fn law_plain_text_leaves_memo(
    pairs: Seq<(Seq<char>, Seq<char>)>,
    env: Seq<(Seq<char>, Seq<char>)>,
    s: Seq<char>,
    parent: Seq<char>,
    vis: Seq<Seq<char>>,
    memo: Seq<(Seq<char>, Seq<char>)>,
)
    requires
        no_refs(s),
    ensures
        memo_after_expand(pairs, env, s, parent, vis, memo) == memo,
    decreases s.len(),
{
    if s.len() > 0 {
        if s.len() >= 2 {
            assert(!(s[0] == '$' && s[1] == '{'));
        }
        assert(no_refs(s.drop_first())) by {
            assert forall|i: int| 0 <= i < s.drop_first().len() - 1 implies !(#[trigger] s.drop_first()[i] == '$' && s.drop_first()[i + 1] == '{') by {
                assert(s.drop_first()[i] == s[i + 1] && s.drop_first()[i + 1] == s[i + 2]);
            }
        }
        law_plain_text_leaves_memo(pairs, env, s.drop_first(), parent, vis, memo);
    }
}


/// Pairs that give every key the same last value resolve every key alike.
pub proof fn lemma_resolve_same_definitions(
    p: Seq<(Seq<char>, Seq<char>)>,
    q: Seq<(Seq<char>, Seq<char>)>,
    env: Seq<(Seq<char>, Seq<char>)>,
    k: Seq<char>,
    vis: Seq<Seq<char>>,
)
    requires
        forall|x: Seq<char>| #[trigger] lookup(p, x) == lookup(q, x),
    ensures
        resolve(p, env, k, vis) == resolve(q, env, k, vis),
    decreases count_outside(p, vis), 0nat,
{
    if !vis.contains(k) {
        assert(lookup(p, k) == lookup(q, k));
        match lookup(p, k) {
            None => {},
            Some(raw) => {
                lemma_count_outside_push(p, vis, k);
                lemma_expand_same_definitions(p, q, env, raw, k, vis.push(k));
            },
        }
    }
}

/// Pairs that give every key the same last value expand every text alike.
pub proof fn lemma_expand_same_definitions(
    p: Seq<(Seq<char>, Seq<char>)>,
    q: Seq<(Seq<char>, Seq<char>)>,
    env: Seq<(Seq<char>, Seq<char>)>,
    s: Seq<char>,
    parent: Seq<char>,
    vis: Seq<Seq<char>>,
)
    requires
        forall|x: Seq<char>| #[trigger] lookup(p, x) == lookup(q, x),
    ensures
        expand(p, env, s, parent, vis) == expand(q, env, s, parent, vis),
    decreases count_outside(p, vis), s.len(),
{
    if s.len() > 0 {
        if s.len() >= 2 && s[0] == '$' && s[1] == '{' {
            let rest = s.skip(2);
            lemma_find_char(rest, '}');
            match find_char(rest, '}') {
                None => {},
                Some(j) => {
                    lemma_resolve_same_definitions(p, q, env, rest.take(j), vis);
                    lemma_expand_same_definitions(p, q, env, rest.skip(j + 1), parent, vis);
                },
            }
        } else {
            lemma_expand_same_definitions(p, q, env, s.drop_first(), parent, vis);
        }
    }
}

/// Interpolating the first `n` pairs succeeds exactly when each of their keys resolves.
pub proof fn lemma_interpolation_ok_iff(
    p: Seq<(Seq<char>, Seq<char>)>,
    env: Seq<(Seq<char>, Seq<char>)>,
    n: nat,
)
    requires
        n <= p.len(),
    ensures
        interpolate_prefix(p, env, n) is Ok <==> forall|i: int| 0 <= i < n ==> #[trigger] resolve(p, env, p[i].0, seq![]) is Ok,
    decreases n,
{
    if n > 0 {
        lemma_interpolation_ok_iff(p, env, (n - 1) as nat);
        if interpolate_prefix(p, env, n) is Ok {
            assert forall|i: int| 0 <= i < n implies #[trigger] resolve(p, env, p[i].0, seq![]) is Ok by {
                if i == n - 1 {
                } else {
                    assert(interpolate_prefix(p, env, (n - 1) as nat) is Ok);
                }
            }
        } else if interpolate_prefix(p, env, (n - 1) as nat) is Ok {
            assert(resolve(p, env, p[n - 1].0, seq![]) is Err);
        }
    }
}

/// Two lists of pairs that give every key the same last value load the same
/// variables: both fail or both succeed, and then with the same map. So the
/// order of pairs with distinct keys does not matter, and forward references
/// resolve like backward ones.
pub proof fn law_same_definitions_load_alike(
    p: Seq<(Seq<char>, Seq<char>)>,
    q: Seq<(Seq<char>, Seq<char>)>,
    env: Seq<(Seq<char>, Seq<char>)>,
)
    requires
        forall|x: Seq<char>| #[trigger] lookup(p, x) == lookup(q, x),
    ensures
        vars_from_pairs(p, env) is Ok <==> vars_from_pairs(q, env) is Ok,
        vars_from_pairs(p, env) is Ok ==> vars_from_pairs(p, env) == vars_from_pairs(q, env),
{
    lemma_interpolation_ok_iff(p, env, p.len());
    lemma_interpolation_ok_iff(q, env, q.len());
    assert forall|x: Seq<char>| #[trigger] lookup(q, x) == lookup(p, x) by {
        assert(lookup(p, x) == lookup(q, x));
    }
    assert forall|x: Seq<char>| resolve(p, env, x, seq![]) == #[trigger] resolve(q, env, x, seq![]) by {
        lemma_resolve_same_definitions(p, q, env, x, seq![]);
    }
    if vars_from_pairs(p, env) is Ok {
        assert forall|j: int| 0 <= j < q.len() implies #[trigger] resolve(q, env, q[j].0, seq![]) is Ok by {
            lemma_lookup_defined(q, j);
            assert(lookup(p, q[j].0) == lookup(q, q[j].0));
            let i = lemma_lookup_index(p, q[j].0);
            assert(resolve(p, env, p[i].0, seq![]) is Ok);
            assert(resolve(p, env, q[j].0, seq![]) == resolve(q, env, q[j].0, seq![]));
        }
    }
    if vars_from_pairs(q, env) is Ok {
        assert forall|i: int| 0 <= i < p.len() implies #[trigger] resolve(p, env, p[i].0, seq![]) is Ok by {
            lemma_lookup_defined(p, i);
            assert(lookup(p, p[i].0) == lookup(q, p[i].0));
            let j = lemma_lookup_index(q, p[i].0);
            assert(resolve(q, env, q[j].0, seq![]) is Ok);
            assert(resolve(p, env, p[i].0, seq![]) == resolve(q, env, p[i].0, seq![]));
        }
    }
    if vars_from_pairs(p, env) is Ok {
        law_loaded_values_are_resolved(p, env);
        law_loaded_values_are_resolved(q, env);
        let m1 = vars_from_pairs(p, env)->Ok_0;
        let m2 = vars_from_pairs(q, env)->Ok_0;
        assert forall|k: Seq<char>| #[trigger] m1.contains_key(k) <==> m2.contains_key(k) by {
            assert(lookup(p, k) == lookup(q, k));
        }
        assert forall|k: Seq<char>| #[trigger] m1.contains_key(k) implies m1[k] == m2[k] by {
            assert(lookup(p, k) == lookup(q, k));
            assert(resolve(p, env, k, seq![]) == resolve(q, env, k, seq![]));
        }
        assert(m1 =~= m2);
    }
}

/// With distinct keys, a key's value is the value of the one pair that has it.
proof fn lemma_lookup_distinct(p: Seq<(Seq<char>, Seq<char>)>, k: Seq<char>)
    requires
        keys_distinct(p),
    ensures
        match lookup(p, k) {
            Some(v) => p.contains((k, v)),
            None => forall|i: int| 0 <= i < p.len() ==> #[trigger] p[i].0 != k,
        },
        forall|v: Seq<char>| #[trigger] p.contains((k, v)) ==> lookup(p, k) == Some(v),
    decreases p.len(),
{
    if p.len() > 0 {
        let init = p.drop_last();
        assert(keys_distinct(init)) by {
            assert forall|i: int, j: int| 0 <= i < j < init.len() implies #[trigger] init[i].0 != #[trigger] init[j].0 by {
                assert(init[i] == p[i] && init[j] == p[j]);
            }
        }
        lemma_lookup_distinct(init, k);
        match lookup(p, k) {
            Some(v) => {
                if p.last().0 == k {
                    assert(p[p.len() - 1] == (k, v));
                } else {
                    let i = choose|i: int| 0 <= i < init.len() && init[i] == (k, v);
                    assert(p[i] == (k, v));
                }
            },
            None => {
                assert forall|i: int| 0 <= i < p.len() implies #[trigger] p[i].0 != k by {
                    if i < p.len() - 1 {
                        assert(init[i] == p[i]);
                    }
                }
            },
        }
        assert forall|v: Seq<char>| #[trigger] p.contains((k, v)) implies lookup(p, k) == Some(v) by {
            let i = choose|i: int| 0 <= i < p.len() && p[i] == (k, v);
            if i == p.len() - 1 {
            } else {
                assert(p.last().0 != k) by {
                    assert(p[i].0 != p[p.len() - 1].0);
                }
                assert(init[i] == p[i]);
                assert(init.contains((k, v)));
            }
        }
    }
}

/// The order of pairs with distinct keys does not matter: any reordering
/// loads the same variables, or fails alike.
pub proof fn law_order_of_distinct_keys_irrelevant(
    p: Seq<(Seq<char>, Seq<char>)>,
    q: Seq<(Seq<char>, Seq<char>)>,
    env: Seq<(Seq<char>, Seq<char>)>,
)
    requires
        keys_distinct(p),
        keys_distinct(q),
        forall|x: (Seq<char>, Seq<char>)| #[trigger] p.contains(x) <==> q.contains(x),
    ensures
        vars_from_pairs(p, env) is Ok <==> vars_from_pairs(q, env) is Ok,
        vars_from_pairs(p, env) is Ok ==> vars_from_pairs(p, env) == vars_from_pairs(q, env),
{
    assert forall|x: Seq<char>| #[trigger] lookup(p, x) == lookup(q, x) by {
        lemma_lookup_distinct(p, x);
        lemma_lookup_distinct(q, x);
        match lookup(p, x) {
            Some(v) => {
                assert(q.contains((x, v)));
            },
            None => {
                match lookup(q, x) {
                    Some(w) => {
                        assert(p.contains((x, w)));
                        let i = choose|i: int| 0 <= i < p.len() && p[i] == (x, w);
                        assert(p[i].0 == x);
                    },
                    None => {},
                }
            },
        }
    }
    law_same_definitions_load_alike(p, q, env);
}


/// How many times `c` occurs in `s`.
pub open spec fn count_char(s: Seq<char>, c: char) -> nat
    decreases s.len(),
{
    if s.len() == 0 {
        0
    } else {
        count_char(s.drop_first(), c) + if s[0] == c {
            1nat
        } else {
            0nat
        }
    }
}

/// Occurrences in a concatenation add up.
proof fn lemma_count_char_concat(x: Seq<char>, y: Seq<char>, c: char)
    ensures
        count_char(x + y, c) == count_char(x, c) + count_char(y, c),
    decreases x.len(),
{
    if x.len() == 0 {
        assert(x + y =~= y);
    } else {
        assert((x + y).drop_first() =~= x.drop_first() + y);
        assert((x + y)[0] == x[0]);
        lemma_count_char_concat(x.drop_first(), y, c);
    }
}

/// Text without `c` holds it no times.
proof fn lemma_count_char_absent(x: Seq<char>, c: char)
    requires
        forall|i: int| 0 <= i < x.len() ==> x[i] != c,
    ensures
        count_char(x, c) == 0,
    decreases x.len(),
{
    if x.len() > 0 {
        assert(x[0] != c);
        assert forall|i: int| 0 <= i < x.drop_first().len() implies x.drop_first()[i] != c by {
            assert(x.drop_first()[i] == x[i + 1]);
        }
        lemma_count_char_absent(x.drop_first(), c);
    }
}

/// A value split on a separator gives one piece more than the separator occurs.
pub proof fn law_split_piece_count(s: Seq<char>, sep: char)
    ensures
        split_on(s, sep).len() == count_char(s, sep) + 1,
    decreases s.len(),
{
    lemma_find_char(s, sep);
    match find_char(s, sep) {
        None => {
            lemma_count_char_absent(s, sep);
        },
        Some(i) => {
            let rest = s.skip(i + 1);
            law_split_piece_count(rest, sep);
            assert(s =~= s.take(i) + (seq![sep] + rest));
            lemma_count_char_concat(s.take(i), seq![sep] + rest, sep);
            lemma_count_char_concat(seq![sep], rest, sep);
            lemma_count_char_absent(s.take(i), sep);
            assert(count_char(seq![sep], sep) == 1) by {
                assert(seq![sep].drop_first() =~= Seq::<char>::empty());
                assert(count_char(Seq::<char>::empty(), sep) == 0);
            }
        },
    }
}


/// The names referenced by `s`, in order: each `${NAME}` whose `}` closes it.
pub open spec fn refs(s: Seq<char>) -> Seq<Seq<char>>
    decreases s.len(),
{
    if s.len() == 0 {
        seq![]
    } else if s.len() >= 2 && s[0] == '$' && s[1] == '{' {
        let rest = s.skip(2);
        match find_char(rest, '}') {
            None => seq![],
            Some(j) => {
                proof {
                    lemma_find_char(rest, '}');
                }
                seq![rest.take(j)] + refs(rest.skip(j + 1))
            },
        }
    } else {
        refs(s.drop_first())
    }
}

/// The value of key `k` references the key `n`, which some pair defines.
pub open spec fn edge(pairs: Seq<(Seq<char>, Seq<char>)>, k: Seq<char>, n: Seq<char>) -> bool {
    &&& lookup(pairs, k) is Some
    &&& refs(lookup(pairs, k)->Some_0).contains(n)
    &&& lookup(pairs, n) is Some
}

/// Each key of `path` references the next.
pub open spec fn is_path(pairs: Seq<(Seq<char>, Seq<char>)>, path: Seq<Seq<char>>) -> bool {
    &&& path.len() >= 1
    &&& forall|i: int| 0 <= i < path.len() - 1 ==> #[trigger] edge(pairs, path[i], path[i + 1])
}

/// Following references from `k` comes back to a key already passed: the
/// reference graph has a cycle reachable from `k`.
pub open spec fn reaches_cycle(pairs: Seq<(Seq<char>, Seq<char>)>, k: Seq<char>) -> bool {
    exists|path: Seq<Seq<char>>|
        #![trigger is_path(pairs, path)]
        is_path(pairs, path) && path[0] == k && path.len() >= 2 && path.drop_last().contains(
            path.last(),
        )
}

/// Expanding text succeeds exactly when each name it references resolves.
pub proof fn lemma_expand_ok_iff(
    pairs: Seq<(Seq<char>, Seq<char>)>,
    env: Seq<(Seq<char>, Seq<char>)>,
    s: Seq<char>,
    parent: Seq<char>,
    vis: Seq<Seq<char>>,
)
    ensures
        expand(pairs, env, s, parent, vis) is Ok <==> forall|i: int|
            0 <= i < refs(s).len() ==> #[trigger] resolve(pairs, env, refs(s)[i], vis) is Ok,
    decreases s.len(),
{
    if s.len() > 0 {
        if s.len() >= 2 && s[0] == '$' && s[1] == '{' {
            let rest = s.skip(2);
            lemma_find_char(rest, '}');
            match find_char(rest, '}') {
                None => {},
                Some(j) => {
                    let tail = rest.skip(j + 1);
                    lemma_expand_ok_iff(pairs, env, tail, parent, vis);
                    let r = refs(s);
                    assert(r == seq![rest.take(j)] + refs(tail));
                    assert forall|i: int| 0 <= i < refs(tail).len() implies r[i + 1] == refs(tail)[i] by {}
                    if expand(pairs, env, s, parent, vis) is Ok {
                        assert forall|i: int| 0 <= i < r.len() implies #[trigger] resolve(pairs, env, r[i], vis) is Ok by {
                            if i > 0 {
                                assert(r[i] == refs(tail)[i - 1]);
                            }
                        }
                    }
                    if forall|i: int| 0 <= i < r.len() ==> #[trigger] resolve(pairs, env, r[i], vis) is Ok {
                        assert(resolve(pairs, env, r[0], vis) is Ok);
                        assert forall|i: int| 0 <= i < refs(tail).len() implies #[trigger] resolve(pairs, env, refs(tail)[i], vis) is Ok by {
                            assert(r[i + 1] == refs(tail)[i]);
                        }
                    }
                },
            }
        } else {
            lemma_expand_ok_iff(pairs, env, s.drop_first(), parent, vis);
        }
    }
}

/// A failing resolution leads, along references, to a key under resolution
/// or to one already passed.
proof fn lemma_error_path(
    pairs: Seq<(Seq<char>, Seq<char>)>,
    env: Seq<(Seq<char>, Seq<char>)>,
    k: Seq<char>,
    vis: Seq<Seq<char>>,
) -> (path: Seq<Seq<char>>)
    requires
        resolve(pairs, env, k, vis) is Err,
        forall|i: int| 0 <= i < vis.len() ==> lookup(pairs, #[trigger] vis[i]) is Some,
    ensures
        is_path(pairs, path),
        path[0] == k,
        (vis + path.drop_last()).contains(path.last()),
    decreases count_outside(pairs, vis), 0nat,
{
    if vis.contains(k) {
        let path = seq![k];
        assert(path.drop_last() =~= Seq::<Seq<char>>::empty());
        assert(vis + path.drop_last() =~= vis);
        path
    } else {
        let raw = lookup(pairs, k)->Some_0;
        let vis2 = vis.push(k);
        lemma_count_outside_push(pairs, vis, k);
        lemma_expand_ok_iff(pairs, env, raw, k, vis2);
        let r = refs(raw);
        let i = choose|i: int| 0 <= i < r.len() && !(#[trigger] resolve(pairs, env, r[i], vis2) is Ok);
        let n = r[i];
        assert forall|j: int| 0 <= j < vis2.len() implies lookup(pairs, #[trigger] vis2[j]) is Some by {
            if j < vis.len() {
                assert(vis2[j] == vis[j]);
            }
        }
        // `n` fails, so it is under resolution or defined: either way a pair defines it.
        assert(lookup(pairs, n) is Some) by {
            if lookup(pairs, n) is None && !vis2.contains(n) {
                assert(resolve(pairs, env, n, vis2) is Ok);
            }
            if vis2.contains(n) {
                let j = choose|j: int| 0 <= j < vis2.len() && vis2[j] == n;
                assert(lookup(pairs, vis2[j]) is Some);
            }
        }
        assert(r.contains(n));
        assert(edge(pairs, k, n));
        let q = lemma_error_path(pairs, env, n, vis2);
        let path = seq![k] + q;
        assert(path.drop_last() =~= seq![k] + q.drop_last());
        assert(vis2 + q.drop_last() =~= vis + path.drop_last());
        assert(path.last() == q.last());
        assert forall|j: int| 0 <= j < path.len() - 1 implies #[trigger] edge(pairs, path[j], path[j + 1]) by {
            if j > 0 {
                let jj = j - 1;
                assert(path[j] == q[jj] && path[j + 1] == q[jj + 1]);
                assert(edge(pairs, q[jj], q[jj + 1]));
            }
        }
        path
    }
}

/// A succeeding resolution never follows references back to a key under
/// resolution nor to one already passed.
proof fn lemma_ok_paths_simple(
    pairs: Seq<(Seq<char>, Seq<char>)>,
    env: Seq<(Seq<char>, Seq<char>)>,
    vis: Seq<Seq<char>>,
    path: Seq<Seq<char>>,
)
    requires
        is_path(pairs, path),
        resolve(pairs, env, path[0], vis) is Ok,
    ensures
        !(vis + path.drop_last()).contains(path.last()),
    decreases path.len(),
{
    let k = path[0];
    if path.len() == 1 {
        assert(vis + path.drop_last() =~= vis);
    } else {
        let q = path.drop_first();
        assert(edge(pairs, path[0], path[1]));
        let raw = lookup(pairs, k)->Some_0;
        let vis2 = vis.push(k);
        lemma_count_outside_push(pairs, vis, k);
        lemma_expand_ok_iff(pairs, env, raw, k, vis2);
        let n = path[1];
        let i = choose|i: int| 0 <= i < refs(raw).len() && refs(raw)[i] == n;
        assert(resolve(pairs, env, refs(raw)[i], vis2) is Ok);
        assert(is_path(pairs, q)) by {
            assert forall|j: int| 0 <= j < q.len() - 1 implies #[trigger] edge(pairs, q[j], q[j + 1]) by {
                let jj = j + 1;
                assert(edge(pairs, path[jj], path[jj + 1]));
                assert(path[jj] == q[j] && path[jj + 1] == q[j + 1]);
            }
        }
        lemma_ok_paths_simple(pairs, env, vis2, q);
        assert(vis2 + q.drop_last() =~= vis + path.drop_last());
        assert(q.last() == path.last());
    }
}

/// Resolving a key fails exactly when following references from it reaches a
/// cycle (a key referring to itself included); names that no pair defines
/// never cause a failure.
pub proof fn law_failure_exactly_on_cycles(
    pairs: Seq<(Seq<char>, Seq<char>)>,
    env: Seq<(Seq<char>, Seq<char>)>,
    k: Seq<char>,
)
    ensures
        resolve(pairs, env, k, seq![]) is Err <==> reaches_cycle(pairs, k),
{
    let empty: Seq<Seq<char>> = seq![];
    if resolve(pairs, env, k, empty) is Err {
        let path = lemma_error_path(pairs, env, k, empty);
        assert(empty + path.drop_last() =~= path.drop_last());
        if path.len() < 2 {
            assert(path.drop_last().len() == 0);
        }
        assert(is_path(pairs, path) && path[0] == k && path.len() >= 2 && path.drop_last().contains(path.last()));
    }
    if reaches_cycle(pairs, k) && resolve(pairs, env, k, empty) is Ok {
        let path = choose|path: Seq<Seq<char>>|
            #![trigger is_path(pairs, path)]
            is_path(pairs, path) && path[0] == k && path.len() >= 2 && path.drop_last().contains(path.last());
        lemma_ok_paths_simple(pairs, env, empty, path);
        assert(empty + path.drop_last() =~= path.drop_last());
    }
}

/// Interpolation fails exactly when the reference graph has a cycle reachable
/// from one of the keys.
pub proof fn law_interpolation_fails_exactly_on_cycles(
    pairs: Seq<(Seq<char>, Seq<char>)>,
    env: Seq<(Seq<char>, Seq<char>)>,
)
    ensures
        interpolation(pairs, env) is Err <==> exists|i: int|
            0 <= i < pairs.len() && reaches_cycle(pairs, #[trigger] pairs[i].0),
{
    lemma_interpolation_ok_iff(pairs, env, pairs.len());
    assert forall|i: int| 0 <= i < pairs.len() implies (#[trigger] resolve(pairs, env, pairs[i].0, seq![]) is Err
        <==> reaches_cycle(pairs, pairs[i].0)) by {
        law_failure_exactly_on_cycles(pairs, env, pairs[i].0);
    }
    if interpolation(pairs, env) is Err {
        let i = choose|i: int| 0 <= i < pairs.len() && !(#[trigger] resolve(pairs, env, pairs[i].0, seq![]) is Ok);
        assert(reaches_cycle(pairs, pairs[i].0));
    }
    if exists|i: int| 0 <= i < pairs.len() && reaches_cycle(pairs, #[trigger] pairs[i].0) {
        let i = choose|i: int| 0 <= i < pairs.len() && reaches_cycle(pairs, #[trigger] pairs[i].0);
        assert(resolve(pairs, env, pairs[i].0, seq![]) is Err);
    }
}


/// `s` with each `${NAME}` whose `}` closes it replaced by `value(NAME)`; a `$`
/// not followed by `{`, and an unclosed `${...` tail, are kept as they are.
pub open spec fn replace_refs(s: Seq<char>, value: spec_fn(Seq<char>) -> Seq<char>) -> Seq<char>
    decreases s.len(),
{
    if s.len() == 0 {
        seq![]
    } else if s.len() >= 2 && s[0] == '$' && s[1] == '{' {
        let rest = s.skip(2);
        match find_char(rest, '}') {
            None => s,
            Some(j) => {
                proof {
                    lemma_find_char(rest, '}');
                }
                value(rest.take(j)) + replace_refs(rest.skip(j + 1), value)
            },
        }
    } else {
        seq![s[0]] + replace_refs(s.drop_first(), value)
    }
}

/// When every name that a text references resolves, expanding the text
/// replaces each reference by the value of the name it references.
pub proof fn law_expansion_replaces_references(
    pairs: Seq<(Seq<char>, Seq<char>)>,
    env: Seq<(Seq<char>, Seq<char>)>,
    s: Seq<char>,
    parent: Seq<char>,
    vis: Seq<Seq<char>>,
)
    requires
        forall|i: int| 0 <= i < refs(s).len() ==> #[trigger] resolve(pairs, env, refs(s)[i], vis) is Ok,
    ensures
        expand(pairs, env, s, parent, vis) == Ok::<Seq<char>, (Seq<char>, Seq<char>)>(
            replace_refs(s, |n: Seq<char>| resolve(pairs, env, n, vis)->Ok_0),
        ),
    decreases s.len(),
{
    let value = |n: Seq<char>| resolve(pairs, env, n, vis)->Ok_0;
    if s.len() > 0 {
        if s.len() >= 2 && s[0] == '$' && s[1] == '{' {
            let rest = s.skip(2);
            lemma_find_char(rest, '}');
            match find_char(rest, '}') {
                None => {
                    assert(seq!['$', '{'] + rest =~= s);
                },
                Some(j) => {
                    let tail = rest.skip(j + 1);
                    let r = refs(s);
                    assert(r == seq![rest.take(j)] + refs(tail));
                    assert(resolve(pairs, env, r[0], vis) is Ok);
                    assert forall|i: int| 0 <= i < refs(tail).len() implies #[trigger] resolve(pairs, env, refs(tail)[i], vis) is Ok by {
                        assert(r[i + 1] == refs(tail)[i]);
                    }
                    law_expansion_replaces_references(pairs, env, tail, parent, vis);
                },
            }
        } else {
            assert(refs(s) == refs(s.drop_first()));
            law_expansion_replaces_references(pairs, env, s.drop_first(), parent, vis);
        }
    }
}

/// When expanding a text fails, the error names the parent key and the first
/// referenced name, left to right, whose resolution fails (whatever error that
/// resolution gave); every name referenced before it resolves.
pub proof fn law_expansion_error_names_parent(
    pairs: Seq<(Seq<char>, Seq<char>)>,
    env: Seq<(Seq<char>, Seq<char>)>,
    s: Seq<char>,
    parent: Seq<char>,
    vis: Seq<Seq<char>>,
)
    requires
        expand(pairs, env, s, parent, vis) is Err,
    ensures
        exists|i: int|
            0 <= i < refs(s).len() && (forall|j: int| 0 <= j < i ==> #[trigger] resolve(pairs, env, refs(s)[j], vis) is Ok)
                && resolve(pairs, env, refs(s)[i], vis) is Err && expand(pairs, env, s, parent, vis)
                == Err::<Seq<char>, (Seq<char>, Seq<char>)>((parent, #[trigger] refs(s)[i])),
    decreases s.len(),
{
    let r = refs(s);
    if s.len() >= 2 && s[0] == '$' && s[1] == '{' {
        let rest = s.skip(2);
        lemma_find_char(rest, '}');
        match find_char(rest, '}') {
            None => {},
            Some(j) => {
                let tail = rest.skip(j + 1);
                assert(r == seq![rest.take(j)] + refs(tail));
                if resolve(pairs, env, rest.take(j), vis) is Err {
                    assert(r[0] == rest.take(j));
                    assert(resolve(pairs, env, r[0], vis) is Err);
                } else {
                    law_expansion_error_names_parent(pairs, env, tail, parent, vis);
                    let k = choose|k: int|
                        0 <= k < refs(tail).len() && (forall|j: int| 0 <= j < k ==> #[trigger] resolve(pairs, env, refs(tail)[j], vis) is Ok)
                            && resolve(pairs, env, refs(tail)[k], vis) is Err && expand(pairs, env, tail, parent, vis)
                            == Err::<Seq<char>, (Seq<char>, Seq<char>)>((parent, #[trigger] refs(tail)[k]));
                    assert(r[k + 1] == refs(tail)[k]);
                    assert forall|jj: int| 0 <= jj < k + 1 implies #[trigger] resolve(pairs, env, r[jj], vis) is Ok by {
                        if jj > 0 {
                            assert(r[jj] == refs(tail)[jj - 1]);
                        }
                    }
                }
            },
        }
    } else if s.len() > 0 {
        law_expansion_error_names_parent(pairs, env, s.drop_first(), parent, vis);
    }
}

}
