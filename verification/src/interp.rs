//! Resolution of `${NAME}` references in parsed values.
//!
//! A reference names another key of the same content, or, when no pair
//! defines it, a variable of the process environment (an undefined one reads
//! as empty). Referenced values are inserted as they resolve; the inserted text
//! is not scanned again. A `${` without a closing `}` stays as it is. A key
//! whose resolution comes back to itself is a circular reference, and the whole
//! interpolation fails with the key being resolved at the top and the reference
//! through which the failure came.

use vstd::prelude::*;
use crate::error::{DotEnvError, ErrorView};
use crate::laws::{
    law_expansion_error_names_parent, law_expansion_replaces_references, lemma_expand_ok_iff, refs,
    replace_refs,
};
use crate::parse::prepend;
use crate::text::{chars_of, copy_range, eq_chars, find_char, find_in, lemma_find_char, string_of};

verus! {

broadcast use vstd::seq_lib::lemma_seq_contains_after_push;

/// The value that the last pair with key `k` gives it.
pub open spec fn lookup(pairs: Seq<(Seq<char>, Seq<char>)>, k: Seq<char>) -> Option<Seq<char>>
    decreases pairs.len(),
{
    if pairs.len() == 0 {
        None
    } else if pairs.last().0 == k {
        Some(pairs.last().1)
    } else {
        lookup(pairs.drop_last(), k)
    }
}

/// The value of the variable `k` in the environment `env` (empty when it is unset).
pub open spec fn env_value(env: Seq<(Seq<char>, Seq<char>)>, k: Seq<char>) -> Seq<char> {
    match lookup(env, k) {
        Some(v) => v,
        None => seq![],
    }
}

/// How many pairs have a key outside `vis`.
pub open spec fn count_outside(pairs: Seq<(Seq<char>, Seq<char>)>, vis: Seq<Seq<char>>) -> nat
    decreases pairs.len(),
{
    if pairs.len() == 0 {
        0
    } else {
        count_outside(pairs.drop_last(), vis) + if vis.contains(pairs.last().0) {
            0nat
        } else {
            1nat
        }
    }
}

/// Marking one more key as visited leaves no more keys outside, and fewer
/// when the key is defined and was not visited yet.
pub proof fn lemma_count_outside_push(
    pairs: Seq<(Seq<char>, Seq<char>)>,
    vis: Seq<Seq<char>>,
    k: Seq<char>,
)
    ensures
        count_outside(pairs, vis.push(k)) <= count_outside(pairs, vis),
        lookup(pairs, k) is Some && !vis.contains(k) ==> count_outside(pairs, vis.push(k))
            < count_outside(pairs, vis),
    decreases pairs.len(),
{
    if pairs.len() > 0 {
        lemma_count_outside_push(pairs.drop_last(), vis, k);
    }
}

/// The value of key `k`, the keys of `vis` being under resolution already; or the
/// error `(key, reference)` that stops it.
pub open spec fn resolve(
    pairs: Seq<(Seq<char>, Seq<char>)>,
    env: Seq<(Seq<char>, Seq<char>)>,
    k: Seq<char>,
    vis: Seq<Seq<char>>,
) -> Result<Seq<char>, (Seq<char>, Seq<char>)>
    decreases count_outside(pairs, vis), 0nat,
{
    if vis.contains(k) {
        Err((k, k))
    } else {
        match lookup(pairs, k) {
            None => Ok(env_value(env, k)),
            Some(raw) => {
                proof {
                    lemma_count_outside_push(pairs, vis, k);
                }
                expand(pairs, env, raw, k, vis.push(k))
            },
        }
    }
}

/// The text `s` (part of the value of `parent`) with its references replaced.
pub open spec fn expand(
    pairs: Seq<(Seq<char>, Seq<char>)>,
    env: Seq<(Seq<char>, Seq<char>)>,
    s: Seq<char>,
    parent: Seq<char>,
    vis: Seq<Seq<char>>,
) -> Result<Seq<char>, (Seq<char>, Seq<char>)>
    decreases count_outside(pairs, vis), s.len(),
{
    if s.len() == 0 {
        Ok(seq![])
    } else if s.len() >= 2 && s[0] == '$' && s[1] == '{' {
        let rest = s.skip(2);
        match find_char(rest, '}') {
            None => Ok(seq!['$', '{'] + rest),
            Some(j) => {
                proof {
                    lemma_find_char(rest, '}');
                }
                let name = rest.take(j);
                match resolve(pairs, env, name, vis) {
                    Err(_) => Err((parent, name)),
                    Ok(v) => prepend(v, expand(pairs, env, rest.skip(j + 1), parent, vis)),
                }
            },
        }
    } else {
        prepend(seq![s[0]], expand(pairs, env, s.drop_first(), parent, vis))
    }
}

/// The first `n` pairs with their values resolved, or the first error met.
pub open spec fn interpolate_prefix(
    pairs: Seq<(Seq<char>, Seq<char>)>,
    env: Seq<(Seq<char>, Seq<char>)>,
    n: nat,
) -> Result<Seq<(Seq<char>, Seq<char>)>, (Seq<char>, Seq<char>)>
    decreases n,
{
    if n == 0 {
        Ok(seq![])
    } else {
        match interpolate_prefix(pairs, env, (n - 1) as nat) {
            Err(e) => Err(e),
            Ok(acc) => match resolve(pairs, env, pairs[n - 1].0, seq![]) {
                Err(e) => Err(e),
                Ok(v) => Ok(acc.push((pairs[n - 1].0, v))),
            },
        }
    }
}

/// All pairs, in order, with their values resolved; or the first error met.
pub open spec fn interpolation(
    pairs: Seq<(Seq<char>, Seq<char>)>,
    env: Seq<(Seq<char>, Seq<char>)>,
) -> Result<Seq<(Seq<char>, Seq<char>)>, (Seq<char>, Seq<char>)> {
    interpolate_prefix(pairs, env, pairs.len())
}


/// Pairs of character vectors, taken as pairs of character sequences.
pub open spec fn pairs_view(v: Seq<(Vec<char>, Vec<char>)>) -> Seq<(Seq<char>, Seq<char>)> {
    Seq::new(v.len(), |i: int| (v[i].0@, v[i].1@))
}

/// Character vectors, taken as character sequences.
pub open spec fn texts_view(v: Seq<Vec<char>>) -> Seq<Seq<char>> {
    Seq::new(v.len(), |i: int| v[i]@)
}

/// Every key of `vis` is defined by some pair.
pub open spec fn all_defined(pairs: Seq<(Seq<char>, Seq<char>)>, vis: Seq<Seq<char>>) -> bool {
    forall|j: int| 0 <= j < vis.len() ==> lookup(pairs, #[trigger] vis[j]) is Some
}

/// None of the first `n` keys of `memo` is in `vis`.
pub open spec fn avoids(vis: Seq<Seq<char>>, memo: Seq<(Seq<char>, Seq<char>)>, n: int) -> bool {
    forall|j: int| 0 <= j < n ==> !vis.contains(#[trigger] memo[j].0)
}

/// Each remembered value is the value of its key, whatever defined keys are under
/// resolution, as long as none of them was remembered at or before it.
pub open spec fn memo_sound(
    pairs: Seq<(Seq<char>, Seq<char>)>,
    env: Seq<(Seq<char>, Seq<char>)>,
    memo: Seq<(Seq<char>, Seq<char>)>,
) -> bool {
    forall|i: int, vis: Seq<Seq<char>>|
        #![trigger resolve(pairs, env, memo[i].0, vis)]
        0 <= i < memo.len() && all_defined(pairs, vis) && avoids(vis, memo, i + 1) ==> resolve(
            pairs,
            env,
            memo[i].0,
            vis,
        ) == Ok::<Seq<char>, (Seq<char>, Seq<char>)>(memo[i].1)
}

/// `new` extends `old` with entries whose keys are not in `vis`.
pub open spec fn grown(
    old: Seq<(Seq<char>, Seq<char>)>,
    new: Seq<(Seq<char>, Seq<char>)>,
    vis: Seq<Seq<char>>,
) -> bool {
    &&& old.len() <= new.len()
    &&& new.take(old.len() as int) == old
    &&& forall|j: int| old.len() <= j < new.len() ==> !vis.contains(#[trigger] new[j].0)
}

/// `memo` holds an entry for key `k`.
pub open spec fn remembered(memo: Seq<(Seq<char>, Seq<char>)>, k: Seq<char>) -> bool {
    exists|i: int| 0 <= i < memo.len() && #[trigger] memo[i].0 == k
}

/// The memo after resolving `k` from `memo`, the keys of `vis` being under
/// resolution: unchanged when `k` is remembered, under resolution, or defined
/// by no pair; otherwise the memo after expanding its value, followed by `k`
/// with its resolved value.
pub open spec fn memo_after_resolve(
    pairs: Seq<(Seq<char>, Seq<char>)>,
    env: Seq<(Seq<char>, Seq<char>)>,
    k: Seq<char>,
    vis: Seq<Seq<char>>,
    memo: Seq<(Seq<char>, Seq<char>)>,
) -> Seq<(Seq<char>, Seq<char>)>
    decreases count_outside(pairs, vis), 0nat,
{
    if remembered(memo, k) || vis.contains(k) {
        memo
    } else {
        match lookup(pairs, k) {
            None => memo,
            Some(raw) => {
                proof {
                    lemma_count_outside_push(pairs, vis, k);
                }
                memo_after_expand(pairs, env, raw, k, vis.push(k), memo).push(
                    (k, expand(pairs, env, raw, k, vis.push(k))->Ok_0),
                )
            },
        }
    }
}

/// The memo after expanding the text `s` from `memo`: the references of `s`
/// are resolved from left to right, each from the memo that the previous one
/// left.
pub open spec fn memo_after_expand(
    pairs: Seq<(Seq<char>, Seq<char>)>,
    env: Seq<(Seq<char>, Seq<char>)>,
    s: Seq<char>,
    parent: Seq<char>,
    vis: Seq<Seq<char>>,
    memo: Seq<(Seq<char>, Seq<char>)>,
) -> Seq<(Seq<char>, Seq<char>)>
    decreases count_outside(pairs, vis), s.len(),
{
    if s.len() == 0 {
        memo
    } else if s.len() >= 2 && s[0] == '$' && s[1] == '{' {
        let rest = s.skip(2);
        match find_char(rest, '}') {
            None => memo,
            Some(j) => {
                proof {
                    lemma_find_char(rest, '}');
                }
                memo_after_expand(
                    pairs,
                    env,
                    rest.skip(j + 1),
                    parent,
                    vis,
                    memo_after_resolve(pairs, env, rest.take(j), vis, memo),
                )
            },
        }
    } else {
        memo_after_expand(pairs, env, s.drop_first(), parent, vis, memo)
    }
}

/// An executable result that matches the mathematical one.
pub open spec fn same_outcome(
    res: Result<Vec<char>, (Vec<char>, Vec<char>)>,
    spec: Result<Seq<char>, (Seq<char>, Seq<char>)>,
) -> bool {
    match spec {
        Ok(t) => res matches Ok(r) && r@ == t,
        Err((a, b)) => res matches Err(e) && e.0@ == a && e.1@ == b,
    }
}

/// A defined key is found by `lookup`.
pub proof fn lemma_lookup_defined(pairs: Seq<(Seq<char>, Seq<char>)>, j: int)
    requires
        0 <= j < pairs.len(),
    ensures
        lookup(pairs, pairs[j].0) is Some,
    decreases pairs.len(),
{
    if pairs.last().0 != pairs[j].0 {
        lemma_lookup_defined(pairs.drop_last(), j);
    }
}

/// Once the first `m` pairs fail, so do all longer prefixes, with the same error.
pub proof fn lemma_prefix_error_persists(
    pairs: Seq<(Seq<char>, Seq<char>)>,
    env: Seq<(Seq<char>, Seq<char>)>,
    m: nat,
    n: nat,
)
    requires
        m <= n,
        interpolate_prefix(pairs, env, m) is Err,
    ensures
        interpolate_prefix(pairs, env, n) == interpolate_prefix(pairs, env, m),
    decreases n - m,
{
    if m < n {
        lemma_prefix_error_persists(pairs, env, m, (n - 1) as nat);
    }
}

/// A copy of `v`.
fn copy_text(v: &Vec<char>) -> (res: Vec<char>)
    ensures
        res@ == v@,
{
    let res = copy_range(v, 0, v.len());
    assert(v@.subrange(0, v@.len() as int) =~= v@);
    res
}

/// `dst` followed by `src`.
fn append_text(dst: &mut Vec<char>, src: &Vec<char>, from: usize, to: usize)
    requires
        from <= to <= src@.len(),
    ensures
        final(dst)@ == old(dst)@ + src@.subrange(from as int, to as int),
{
    let mut i = from;
    while i < to
        invariant
            from <= i <= to <= src@.len(),
            dst@ == old(dst)@ + src@.subrange(from as int, i as int),
        decreases to - i,
    {
        dst.push(src[i]);
        assert(old(dst)@ + src@.subrange(from as int, i + 1) =~= (old(dst)@ + src@.subrange(
            from as int,
            i as int,
        )).push(src@[i as int]));
        i += 1;
    }
}

/// The index of the last pair whose key is `key`.
fn find_last(pairs: &Vec<(Vec<char>, Vec<char>)>, key: &Vec<char>) -> (res: Option<usize>)
    ensures
        match lookup(pairs_view(pairs@), key@) {
            Some(v) => res matches Some(i) && i < pairs@.len() && pairs@[i as int].0@ == key@
                && pairs@[i as int].1@ == v,
            None => res is None,
        },
{
    let ghost pv = pairs_view(pairs@);
    let mut i = pairs.len();
    assert(pv.take(i as int) =~= pv);
    while i > 0
        invariant
            i <= pairs@.len(),
            pv == pairs_view(pairs@),
            lookup(pv, key@) == lookup(pv.take(i as int), key@),
        decreases i,
    {
        assert(pv.take(i as int).drop_last() =~= pv.take(i - 1));
        if eq_chars(&pairs[i - 1].0, key) {
            return Some(i - 1);
        }
        i -= 1;
    }
    None
}

/// The index of an entry of `memo` whose key is `key`.
fn find_remembered(memo: &Vec<(Vec<char>, Vec<char>)>, key: &Vec<char>) -> (res: Option<usize>)
    ensures
        match res {
            Some(i) => i < memo@.len() && memo@[i as int].0@ == key@,
            None => !remembered(pairs_view(memo@), key@),
        },
{
    let mut i: usize = 0;
    while i < memo.len()
        invariant
            i <= memo@.len(),
            forall|j: int| 0 <= j < i ==> memo@[j].0@ != key@,
        decreases memo@.len() - i,
    {
        if eq_chars(&memo[i].0, key) {
            return Some(i);
        }
        i += 1;
    }
    None
}

/// Whether `key` is one of `stack`.
fn on_stack(stack: &Vec<Vec<char>>, key: &Vec<char>) -> (res: bool)
    ensures
        res == texts_view(stack@).contains(key@),
{
    let mut i: usize = 0;
    while i < stack.len()
        invariant
            i <= stack@.len(),
            forall|j: int| 0 <= j < i ==> stack@[j]@ != key@,
        decreases stack@.len() - i,
    {
        if eq_chars(&stack[i], key) {
            assert(texts_view(stack@)[i as int] == key@);
            return true;
        }
        i += 1;
    }
    false
}


/// Recursively resolve a single key's value, detecting circular references.
///
/// `resolved` remembers the keys resolved so far, in the order in which they
/// were resolved; `in_progress` holds the keys whose resolution is under way.
fn resolve_key(
    key: &Vec<char>,
    pairs: &Vec<(Vec<char>, Vec<char>)>,
    env: &Vec<(Vec<char>, Vec<char>)>,
    resolved: &mut Vec<(Vec<char>, Vec<char>)>,
    in_progress: &mut Vec<Vec<char>>,
) -> (res: Result<Vec<char>, (Vec<char>, Vec<char>)>)
    requires
        memo_sound(pairs_view(pairs@), pairs_view(env@), pairs_view(old(resolved)@)),
        all_defined(pairs_view(pairs@), texts_view(old(in_progress)@)),
        avoids(
            texts_view(old(in_progress)@),
            pairs_view(old(resolved)@),
            old(resolved)@.len() as int,
        ),
    ensures
        same_outcome(
            res,
            resolve(pairs_view(pairs@), pairs_view(env@), key@, texts_view(old(in_progress)@)),
        ),
        res is Ok ==> {
            &&& grown(
                pairs_view(old(resolved)@),
                pairs_view(final(resolved)@),
                texts_view(old(in_progress)@),
            )
            &&& memo_sound(pairs_view(pairs@), pairs_view(env@), pairs_view(final(resolved)@))
            &&& final(in_progress)@ == old(in_progress)@
            &&& lookup(pairs_view(pairs@), key@) is Some ==> exists|i: int|
                0 <= i < final(resolved)@.len() && #[trigger] pairs_view(final(resolved)@)[i] == (
                    key@,
                    res->Ok_0@,
                )
            &&& pairs_view(final(resolved)@) == memo_after_resolve(
                pairs_view(pairs@),
                pairs_view(env@),
                key@,
                texts_view(old(in_progress)@),
                pairs_view(old(resolved)@),
            )
        },
        remembered(pairs_view(old(resolved)@), key@) || texts_view(old(in_progress)@).contains(key@)
            || lookup(pairs_view(pairs@), key@) is None ==> final(resolved)@ == old(resolved)@
            && final(in_progress)@ == old(in_progress)@,
        forall|i: int|
            0 <= i < old(resolved)@.len() && #[trigger] old(resolved)@[i].0@ == key@ ==> (res matches Ok(
                v,
            ) && v@ == old(resolved)@[i].1@),
        !remembered(pairs_view(old(resolved)@), key@) && texts_view(old(in_progress)@).contains(key@)
            ==> (res matches Err(e) && e.0@ == key@ && e.1@ == key@),
        !remembered(pairs_view(old(resolved)@), key@) && !texts_view(old(in_progress)@).contains(
            key@,
        ) && lookup(pairs_view(pairs@), key@) is None ==> (res matches Ok(v) && v@ == env_value(
            pairs_view(env@),
            key@,
        )),
    decreases count_outside(pairs_view(pairs@), texts_view(old(in_progress)@)), 0nat,
{
    let ghost p = pairs_view(pairs@);
    let ghost e = pairs_view(env@);
    let ghost vis = texts_view(in_progress@);
    let ghost memo0 = pairs_view(resolved@);
    assert forall|i: int|
        0 <= i < resolved@.len() && #[trigger] resolved@[i].0@ == key@ implies remembered(memo0, key@)
        && resolve(p, e, key@, vis) == Ok::<Seq<char>, (Seq<char>, Seq<char>)>(resolved@[i].1@) by {
        assert(memo0[i].0 == key@);
        assert(avoids(vis, memo0, i + 1));
        assert(resolve(p, e, memo0[i].0, vis) == Ok::<Seq<char>, (Seq<char>, Seq<char>)>(memo0[i].1));
    }
    if let Some(i) = find_remembered(resolved, key) {
        proof {
            assert(memo0[i as int].0 == key@);
            assert(resolve(p, e, memo0[i as int].0, vis) == Ok::<Seq<char>, (Seq<char>, Seq<char>)>(memo0[i as int].1));
            assert(pairs_view(resolved@).take(memo0.len() as int) =~= memo0);
        }
        return Ok(copy_text(&resolved[i].1));
    }
    if on_stack(in_progress, key) {
        return Err((copy_text(key), copy_text(key)));
    }
    let raw_value = match find_last(pairs, key) {
        Some(i) => copy_text(&pairs[i].1),
        None => {
            // Fall back to the process environment.
            proof {
                assert(pairs_view(resolved@).take(memo0.len() as int) =~= memo0);
            }
            return match find_last(env, key) {
                Some(j) => Ok(copy_text(&env[j].1)),
                None => Ok(Vec::new()),
            };
        },
    };
    proof {
        lemma_count_outside_push(p, vis, key@);
    }
    let ghost vis2 = vis.push(key@);
    in_progress.push(copy_text(key));
    assert(texts_view(in_progress@) =~= vis2);
    let result = expand_references(&raw_value, key, pairs, env, resolved, in_progress)?;
    let ghost memo1 = pairs_view(resolved@);
    in_progress.pop();
    assert(in_progress@ =~= old(in_progress)@);
    resolved.push((copy_text(key), copy_text(&result)));
    let ghost memo2 = pairs_view(resolved@);
    proof {
        assert(memo2 =~= memo1.push((key@, result@)));
        assert(vis2.contains(key@)) by {
            assert(vis2[vis.len() as int] == key@);
        }
        // The new entry is the value of `key` for every admissible set of keys under resolution.
        assert forall|i: int, w: Seq<Seq<char>>|
            #![trigger resolve(p, e, memo2[i].0, w)]
            0 <= i < memo2.len() && all_defined(p, w) && avoids(w, memo2, i + 1) implies resolve(
                p,
                e,
                memo2[i].0,
                w,
            ) == Ok::<Seq<char>, (Seq<char>, Seq<char>)>(memo2[i].1) by {
            if i < memo1.len() {
                assert(memo2[i] == memo1[i]);
                assert(avoids(w, memo1, i + 1)) by {
                    assert forall|j: int| 0 <= j < i + 1 implies !w.contains(#[trigger] memo1[j].0) by {
                        assert(memo2[j] == memo1[j]);
                    }
                }
            } else {
                assert(memo2[i] == (key@, result@));
                assert(!w.contains(key@));
                let w2 = w.push(key@);
                assert(all_defined(p, w2)) by {
                    assert forall|j: int| 0 <= j < w2.len() implies lookup(p, #[trigger] w2[j]) is Some by {
                        if j < w.len() {
                            assert(w2[j] == w[j]);
                        }
                    }
                }
                assert(avoids(w2, memo1, memo1.len() as int)) by {
                    assert forall|j: int| 0 <= j < memo1.len() implies !w2.contains(#[trigger] memo1[j].0) by {
                        assert(memo2[j] == memo1[j]);
                        if j < memo0.len() {
                            assert(memo1.take(memo0.len() as int)[j] == memo0[j]);
                            assert(memo0[j].0 != key@) by {
                                if memo0[j].0 == key@ {
                                    assert(remembered(memo0, key@));
                                }
                            }
                        } else {
                            assert(!vis2.contains(memo1[j].0));
                        }
                    }
                }
                assert(expand(p, e, raw_value@, key@, w2) == Ok::<Seq<char>, (Seq<char>, Seq<char>)>(result@));
            }
        }
        assert(memo2.take(memo0.len() as int) =~= memo1.take(memo0.len() as int));
        assert(memo2[memo1.len() as int] == (key@, result@));
    }
    Ok(result)
}

/// Expand `${VAR}` references within the string value of `parent_key`.
fn expand_references(
    value: &Vec<char>,
    parent_key: &Vec<char>,
    pairs: &Vec<(Vec<char>, Vec<char>)>,
    env: &Vec<(Vec<char>, Vec<char>)>,
    resolved: &mut Vec<(Vec<char>, Vec<char>)>,
    in_progress: &mut Vec<Vec<char>>,
) -> (res: Result<Vec<char>, (Vec<char>, Vec<char>)>)
    requires
        memo_sound(pairs_view(pairs@), pairs_view(env@), pairs_view(old(resolved)@)),
        all_defined(pairs_view(pairs@), texts_view(old(in_progress)@)),
        avoids(
            texts_view(old(in_progress)@),
            pairs_view(old(resolved)@),
            old(resolved)@.len() as int,
        ),
    ensures
        same_outcome(
            res,
            expand(
                pairs_view(pairs@),
                pairs_view(env@),
                value@,
                parent_key@,
                texts_view(old(in_progress)@),
            ),
        ),
        res is Ok ==> {
            &&& grown(
                pairs_view(old(resolved)@),
                pairs_view(final(resolved)@),
                texts_view(old(in_progress)@),
            )
            &&& memo_sound(pairs_view(pairs@), pairs_view(env@), pairs_view(final(resolved)@))
            &&& final(in_progress)@ == old(in_progress)@
            &&& forall|w: Seq<Seq<char>>|
                all_defined(pairs_view(pairs@), w) && avoids(
                    w,
                    pairs_view(final(resolved)@),
                    final(resolved)@.len() as int,
                ) ==> #[trigger] expand(pairs_view(pairs@), pairs_view(env@), value@, parent_key@, w)
                    == Ok::<Seq<char>, (Seq<char>, Seq<char>)>(res->Ok_0@)
            &&& pairs_view(final(resolved)@) == memo_after_expand(
                pairs_view(pairs@),
                pairs_view(env@),
                value@,
                parent_key@,
                texts_view(old(in_progress)@),
                pairs_view(old(resolved)@),
            )
        },
        (forall|i: int|
            0 <= i < refs(value@).len() ==> #[trigger] resolve(
                pairs_view(pairs@),
                pairs_view(env@),
                refs(value@)[i],
                texts_view(old(in_progress)@),
            ) is Ok) ==> (res matches Ok(v) && v@ == replace_refs(
            value@,
            |n: Seq<char>|
                resolve(pairs_view(pairs@), pairs_view(env@), n, texts_view(old(in_progress)@))->Ok_0,
        )),
        res is Err ==> exists|i: int|
            0 <= i < refs(value@).len() && (forall|j: int|
                0 <= j < i ==> #[trigger] resolve(
                    pairs_view(pairs@),
                    pairs_view(env@),
                    refs(value@)[j],
                    texts_view(old(in_progress)@),
                ) is Ok) && resolve(
                pairs_view(pairs@),
                pairs_view(env@),
                refs(value@)[i],
                texts_view(old(in_progress)@),
            ) is Err && res->Err_0.0@ == parent_key@ && res->Err_0.1@ == #[trigger] refs(value@)[i],
    decreases count_outside(pairs_view(pairs@), texts_view(old(in_progress)@)), 1nat,
{
    let ghost p = pairs_view(pairs@);
    let ghost e = pairs_view(env@);
    let ghost vis = texts_view(in_progress@);
    let ghost memo0 = pairs_view(resolved@);
    let ghost s = value@;
    let ghost par = parent_key@;
    let mut result: Vec<char> = Vec::new();
    let n = value.len();
    let mut i: usize = 0;
    assert(s.skip(0) =~= s);
    assert forall|w: Seq<Seq<char>>| all_defined(p, w) && avoids(w, memo0, memo0.len() as int)
        implies #[trigger] expand(p, e, s, par, w) == prepend(result@, expand(p, e, s.skip(0), par, w)) by {
        match expand(p, e, s, par, w) {
            Ok(t) => { assert(result@ + t =~= t); },
            Err(x) => {},
        }
    }
    assert(memo0.take(memo0.len() as int) =~= memo0);
    assert(memo_after_expand(p, e, s, par, vis, memo0) == memo_after_expand(p, e, s.skip(0), par, vis, memo0));
    while i < n
        invariant
            i <= n == s.len(),
            s == value@,
            p == pairs_view(pairs@),
            e == pairs_view(env@),
            par == parent_key@,
            in_progress@ == old(in_progress)@,
            vis == texts_view(in_progress@),
            memo_sound(p, e, pairs_view(resolved@)),
            all_defined(p, vis),
            grown(memo0, pairs_view(resolved@), vis),
            avoids(vis, pairs_view(resolved@), resolved@.len() as int),
            forall|w: Seq<Seq<char>>|
                all_defined(p, w) && avoids(w, pairs_view(resolved@), resolved@.len() as int)
                    ==> #[trigger] expand(p, e, s, par, w) == prepend(result@, expand(p, e, s.skip(i as int), par, w)),
            memo_after_expand(p, e, s, par, vis, memo0) == memo_after_expand(
                p,
                e,
                s.skip(i as int),
                par,
                vis,
                pairs_view(resolved@),
            ),
        decreases n - i,
    {
        let ghost t = s.skip(i as int);
        let ghost memo_a = pairs_view(resolved@);
        let ghost acc = result@;
        let c = value[i];
        if c == '$' && i + 1 < n && value[i + 1] == '{' {
            assert(t.skip(2) =~= s.subrange(i + 2, n as int));
            match find_in(value, i + 2, n, '}') {
                None => {
                    // No closing brace: the rest stays as it is.
                    result.push('$');
                    result.push('{');
                    append_text(&mut result, value, i + 2, n);
                    assert(result@ =~= acc + (seq!['$', '{'] + t.skip(2)));
                    assert(memo_after_expand(p, e, t, par, vis, memo_a) == memo_a);
                    assert(s.skip(n as int).len() == 0);
                    i = n;
                    assert forall|w: Seq<Seq<char>>|
                        all_defined(p, w) && avoids(w, pairs_view(resolved@), resolved@.len() as int)
                        implies #[trigger] expand(p, e, s, par, w) == prepend(result@, expand(p, e, s.skip(i as int), par, w)) by {
                        assert(s.skip(n as int).len() == 0);
                        assert(result@ + seq![] =~= result@);
                    }
                },
                Some(close) => {
                    proof {
                        lemma_find_char(t.skip(2), '}');
                    }
                    let ghost j = close - (i + 2);
                    assert(t.skip(2).take(j) =~= s.subrange(i + 2, close as int));
                    assert(t.skip(2).skip(j + 1) =~= s.skip(close + 1));
                    let ref_name = copy_range(value, i + 2, close);
                    assert(expand(p, e, s, par, vis) == prepend(acc, expand(p, e, t, par, vis)));
                    let resolved_val = match resolve_key(&ref_name, pairs, env, resolved, in_progress) {
                        Ok(v) => v,
                        Err(_) => {
                            proof {
                                assert(resolve(p, e, ref_name@, vis) is Err);
                                law_expansion_error_names_parent(p, e, s, par, vis);
                                lemma_expand_ok_iff(p, e, s, par, vis);
                            }
                            return Err((copy_text(parent_key), ref_name));
                        },
                    };
                    let ghost memo_b = pairs_view(resolved@);
                    assert(memo_after_expand(p, e, t, par, vis, memo_a) == memo_after_expand(
                        p,
                        e,
                        s.skip(close + 1),
                        par,
                        vis,
                        memo_b,
                    ));
                    append_text(&mut result, &resolved_val, 0, resolved_val.len());
                    assert(resolved_val@.subrange(0, resolved_val@.len() as int) =~= resolved_val@);
                    proof {
                        assert forall|k: int| 0 <= k < memo0.len() implies #[trigger] memo_b[k] == memo0[k] by {
                            assert(memo_b.take(memo_a.len() as int)[k] == memo_a[k]);
                            assert(memo_a.take(memo0.len() as int)[k] == memo0[k]);
                        }
                        assert(memo_b.take(memo0.len() as int) =~= memo0);
                        assert forall|w: Seq<Seq<char>>|
                            all_defined(p, w) && avoids(w, memo_b, memo_b.len() as int)
                            implies #[trigger] expand(p, e, s, par, w) == prepend(result@, expand(p, e, s.skip(close + 1), par, w)) by {
                            assert(avoids(w, memo_a, memo_a.len() as int)) by {
                                assert forall|k: int| 0 <= k < memo_a.len() implies !w.contains(#[trigger] memo_a[k].0) by {
                                    assert(memo_b.take(memo_a.len() as int)[k] == memo_a[k]);
                                }
                            }
                            let name = s.subrange(i + 2, close as int);
                            assert(resolve(p, e, name, w) == Ok::<Seq<char>, (Seq<char>, Seq<char>)>(resolved_val@)) by {
                                if lookup(p, name) is Some {
                                    let k = choose|k: int| 0 <= k < memo_b.len() && #[trigger] memo_b[k] == (name, resolved_val@);
                                    assert(avoids(w, memo_b, k + 1));
                                    assert(resolve(p, e, memo_b[k].0, w) == Ok::<Seq<char>, (Seq<char>, Seq<char>)>(memo_b[k].1));
                                } else {
                                    assert(!w.contains(name));
                                    assert(!vis.contains(name));
                                }
                            }
                            match expand(p, e, s.skip(close + 1), par, w) {
                                Ok(x) => {
                                    assert(acc + (resolved_val@ + x) =~= result@ + x);
                                },
                                Err(x) => {},
                            }
                        }
                        assert forall|k: int| memo0.len() <= k < memo_b.len() implies !vis.contains(#[trigger] memo_b[k].0) by {
                            if k >= memo_a.len() {
                            } else {
                                assert(memo_b.take(memo_a.len() as int)[k] == memo_a[k]);
                            }
                        }
                        assert(avoids(vis, memo_b, memo_b.len() as int)) by {
                            assert forall|k: int| 0 <= k < memo_b.len() implies !vis.contains(#[trigger] memo_b[k].0) by {
                                if k < memo_a.len() {
                                    assert(memo_b.take(memo_a.len() as int)[k] == memo_a[k]);
                                }
                            }
                        }
                    }
                    i = close + 1;
                },
            }
        } else {
            result.push(c);
            proof {
                assert(t.drop_first() =~= s.skip(i + 1));
                assert(memo_after_expand(p, e, t, par, vis, memo_a) == memo_after_expand(
                    p,
                    e,
                    s.skip(i + 1),
                    par,
                    vis,
                    memo_a,
                ));
                assert forall|w: Seq<Seq<char>>|
                    all_defined(p, w) && avoids(w, pairs_view(resolved@), resolved@.len() as int)
                    implies #[trigger] expand(p, e, s, par, w) == prepend(result@, expand(p, e, s.skip(i + 1), par, w)) by {
                    match expand(p, e, s.skip(i + 1), par, w) {
                        Ok(x) => {
                            assert(acc + (seq![c] + x) =~= result@ + x);
                        },
                        Err(x) => {},
                    }
                }
            }
            i += 1;
        }
    }
    proof {
        assert(s.skip(n as int) =~= Seq::<char>::empty());
        assert(result@ + seq![] =~= result@);
        if forall|i: int| 0 <= i < refs(s).len() ==> #[trigger] resolve(p, e, refs(s)[i], vis) is Ok {
            law_expansion_replaces_references(p, e, s, par, vis);
        }
    }
    Ok(result)
}


/// Resolve the references in the values of `pairs`, keeping their order.
fn interpolate_texts(pairs: &Vec<(Vec<char>, Vec<char>)>, env: &Vec<(Vec<char>, Vec<char>)>) -> (res:
    Result<Vec<(Vec<char>, Vec<char>)>, (Vec<char>, Vec<char>)>)
    ensures
        match interpolation(pairs_view(pairs@), pairs_view(env@)) {
            Ok(r) => res matches Ok(x) && pairs_view(x@) == r,
            Err((a, b)) => res matches Err(x) && x.0@ == a && x.1@ == b,
        },
{
    let ghost p = pairs_view(pairs@);
    let ghost e = pairs_view(env@);
    let mut resolved: Vec<(Vec<char>, Vec<char>)> = Vec::new();
    let n = pairs.len();
    let mut i: usize = 0;
    assert(memo_sound(p, e, pairs_view(resolved@)));
    while i < n
        invariant
            i <= n == pairs@.len(),
            p == pairs_view(pairs@),
            e == pairs_view(env@),
            memo_sound(p, e, pairs_view(resolved@)),
            interpolate_prefix(p, e, i as nat) is Ok,
            forall|j: int| 0 <= j < i ==> remembered(pairs_view(resolved@), #[trigger] p[j].0),
        decreases n - i,
    {
        let ghost memo_a = pairs_view(resolved@);
        let ghost empty: Seq<Seq<char>> = seq![];
        assert(all_defined(p, empty));
        if let Some(k) = find_remembered(&resolved, &pairs[i].0) {
            assert(avoids(empty, memo_a, k + 1));
            assert(resolve(p, e, memo_a[k as int].0, empty) == Ok::<Seq<char>, (Seq<char>, Seq<char>)>(memo_a[k as int].1));
            assert(p[i as int].0 == memo_a[k as int].0);
            assert(remembered(memo_a, p[i as int].0));
        } else {
            let mut in_progress: Vec<Vec<char>> = Vec::new();
            assert(texts_view(in_progress@) =~= empty);
            match resolve_key(&pairs[i].0, pairs, env, &mut resolved, &mut in_progress) {
                Ok(_) => {
                    proof {
                        let memo_b = pairs_view(resolved@);
                        lemma_lookup_defined(p, i as int);
                        assert forall|j: int| 0 <= j < i + 1 implies remembered(memo_b, #[trigger] p[j].0) by {
                            if j < i {
                                assert(remembered(memo_a, p[j].0));
                                let k = choose|k: int| 0 <= k < memo_a.len() && #[trigger] memo_a[k].0 == p[j].0;
                                assert(memo_b.take(memo_a.len() as int)[k] == memo_a[k]);
                                assert(memo_b[k].0 == p[j].0);
                            } else {
                                let k = choose|k: int| 0 <= k < memo_b.len() && #[trigger] memo_b[k] == (p[j].0, memo_b[k].1);
                                assert(memo_b[k].0 == p[j].0);
                            }
                        }
                    }
                },
                Err(x) => {
                    proof {
                        lemma_prefix_error_persists(p, e, (i + 1) as nat, n as nat);
                    }
                    return Err(x);
                },
            }
        }
        i += 1;
    }
    let mut out: Vec<(Vec<char>, Vec<char>)> = Vec::new();
    let mut i: usize = 0;
    assert(pairs_view(out@) =~= Seq::<(Seq<char>, Seq<char>)>::empty());
    while i < n
        invariant
            i <= n == pairs@.len(),
            p == pairs_view(pairs@),
            e == pairs_view(env@),
            memo_sound(p, e, pairs_view(resolved@)),
            interpolate_prefix(p, e, n as nat) is Ok,
            interpolate_prefix(p, e, i as nat) == Ok::<Seq<(Seq<char>, Seq<char>)>, (Seq<char>, Seq<char>)>(pairs_view(out@)),
            forall|j: int| 0 <= j < n ==> remembered(pairs_view(resolved@), #[trigger] p[j].0),
        decreases n - i,
    {
        let ghost memo = pairs_view(resolved@);
        let ghost empty: Seq<Seq<char>> = seq![];
        assert(remembered(memo, p[i as int].0));
        let k = match find_remembered(&resolved, &pairs[i].0) {
            Some(k) => k,
            None => {
                assert(false);
                0
            },
        };
        assert(all_defined(p, empty));
        assert(avoids(empty, memo, k + 1));
        assert(resolve(p, e, memo[k as int].0, empty) == Ok::<Seq<char>, (Seq<char>, Seq<char>)>(memo[k as int].1));
        let ghost before = pairs_view(out@);
        out.push((copy_text(&pairs[i].0), copy_text(&resolved[k].1)));
        proof {
            assert(pairs_view(out@) =~= before.push((p[i as int].0, memo[k as int].1)));
            if interpolate_prefix(p, e, (i + 1) as nat) is Err {
                lemma_prefix_error_persists(p, e, (i + 1) as nat, n as nat);
            }
        }
        i += 1;
    }
    Ok(out)
}

/// The character vectors of the pairs `v`.
fn texts_of(v: &Vec<(String, String)>) -> (res: Vec<(Vec<char>, Vec<char>)>)
    ensures
        pairs_view(res@) == v.deep_view(),
{
    let mut res: Vec<(Vec<char>, Vec<char>)> = Vec::new();
    let mut i: usize = 0;
    while i < v.len()
        invariant
            i <= v@.len(),
            pairs_view(res@) == v.deep_view().take(i as int),
        decreases v@.len() - i,
    {
        let ghost before = pairs_view(res@);
        res.push((chars_of(v[i].0.as_str()), chars_of(v[i].1.as_str())));
        assert(pairs_view(res@) =~= v.deep_view().take(i + 1)) by {
            assert(pairs_view(res@) =~= before.push((v@[i as int].0@, v@[i as int].1@)));
        }
        i += 1;
    }
    assert(v.deep_view().take(v@.len() as int) =~= v.deep_view());
    res
}

/// The strings of the character-vector pairs `v`.
fn strings_of(v: &Vec<(Vec<char>, Vec<char>)>) -> (res: Vec<(String, String)>)
    ensures
        res.deep_view() == pairs_view(v@),
{
    let mut res: Vec<(String, String)> = Vec::new();
    let mut i: usize = 0;
    while i < v.len()
        invariant
            i <= v@.len(),
            res.deep_view() == pairs_view(v@).take(i as int),
        decreases v@.len() - i,
    {
        let ghost before = res.deep_view();
        let k = string_of(&v[i].0, 0, v[i].0.len());
        let x = string_of(&v[i].1, 0, v[i].1.len());
        assert(v@[i as int].0@.subrange(0, v@[i as int].0@.len() as int) =~= v@[i as int].0@);
        assert(v@[i as int].1@.subrange(0, v@[i as int].1@.len() as int) =~= v@[i as int].1@);
        res.push((k, x));
        assert(res.deep_view() =~= pairs_view(v@).take(i + 1)) by {
            assert(res.deep_view() =~= before.push((v@[i as int].0@, v@[i as int].1@)));
        }
        i += 1;
    }
    assert(pairs_view(v@).take(v@.len() as int) =~= pairs_view(v@));
    res
}

/// Resolve `${VAR_NAME}` interpolation in parsed values.
///
/// References are looked up in the parsed pairs first (the last pair with a
/// key gives its value), then in `env`, the variables of the process
/// environment. Circular references are reported as errors.
pub fn interpolate(pairs: Vec<(String, String)>, env: &Vec<(String, String)>) -> (res: Result<
    Vec<(String, String)>,
    DotEnvError,
>)
    ensures
        match interpolation(pairs.deep_view(), env.deep_view()) {
            Ok(r) => res matches Ok(x) && x.deep_view() == r,
            Err((k, r)) => res matches Err(x) && x@ == (ErrorView::InterpolationError {
                key: k,
                references: r,
            }),
        },
{
    let texts = texts_of(&pairs);
    let env_texts = texts_of(env);
    match interpolate_texts(&texts, &env_texts) {
        Ok(out) => Ok(strings_of(&out)),
        Err((k, r)) => {
            let key = string_of(&k, 0, k.len());
            let references = string_of(&r, 0, r.len());
            assert(k@.subrange(0, k@.len() as int) =~= k@);
            assert(r@.subrange(0, r@.len() as int) =~= r@);
            Err(DotEnvError::InterpolationError { key, references })
        },
    }
}

}
